//! A symbol table implementation supporting snapshots, i.e. an O(1) cloning
//! operation, safe to share across threads.
//!
//! The table keeps its bindings in a persistent (structurally shared) map;
//! `push` freezes the current state behind an atomically counted pointer and
//! all later mutation applies copy-on-write to the new current layer, so a
//! frozen ancestor is never rewritten and clones of a handle are fully
//! independent under mutation.
use vstd::prelude::*;

use crate::model::{st_empty, st_pop, st_push, ScopeState};
use crate::{MutSymbolMap, SymbolMap, SymbolStack};
use std::sync::Arc;

verus! {

#[verifier::external_type_specification]
#[verifier::external_body]
#[verifier::reject_recursive_types(K)]
#[verifier::reject_recursive_types(V)]
#[verifier::reject_recursive_types(S)]
pub struct ExImHashMap<K, V, S>(im::HashMap<K, V, S>);

/// The bindings held by a persistent layer, as a map from key characters to
/// the stored value.
pub uninterp spec fn layer_table(m: im::HashMap<String, usize>) -> Map<Seq<char>, usize>;

/// Relies on im::HashMap::new: the constructed map is empty.
#[verifier::external_body]
fn layer_new() -> (r: im::HashMap<String, usize>)
    ensures
        layer_table(r).dom() == Set::<Seq<char>>::empty(),
{
    im::HashMap::new()
}

/// Relies on im::HashMap::insert: binds the key to the value, overwriting
/// any previous binding and leaving every other key unchanged.
#[verifier::external_body]
fn layer_insert(m: &mut im::HashMap<String, usize>, key: String, value: usize)
    ensures
        layer_table(*final(m)) == layer_table(*old(m)).insert(key@, value),
{
    m.insert(key, value);
}

/// Relies on im::HashMap::get: the stored value for the key, if present.
#[verifier::external_body]
fn layer_get<'a>(m: &'a im::HashMap<String, usize>, key: &String) -> (r: Option<&'a usize>)
    ensures
        match r {
            Some(v) => layer_table(*m).dom().contains(key@) && *v == layer_table(*m)[key@],
            None => !layer_table(*m).dom().contains(key@),
        },
{
    m.get(key)
}

/// Relies on im::HashMap::get_mut: a mutable reference to the stored value
/// for the key, if present; by copy-on-write, the map changes at that key
/// alone and no other version of the map is affected.
#[verifier::external_body]
fn layer_get_mut<'a>(m: &'a mut im::HashMap<String, usize>, key: &String) -> (r: Option<
    &'a mut usize,
>)
    ensures
        match r {
            Some(v) => layer_table(*old(m)).dom().contains(key@) && *v == layer_table(
                *old(m),
            )[key@] && layer_table(*final(m)) == layer_table(*old(m)).insert(key@, *final(v)),
            None => !layer_table(*old(m)).dom().contains(key@) && layer_table(*final(m))
                == layer_table(*old(m)),
        },
{
    m.get_mut(key)
}

/// Relies on im::HashMap::contains_key: whether the key is bound.
#[verifier::external_body]
fn layer_contains(m: &im::HashMap<String, usize>, key: &String) -> (r: bool)
    ensures
        r == layer_table(*m).dom().contains(key@),
{
    m.contains_key(key)
}

/// Relies on im::HashMap::is_empty: whether the map holds no binding.
#[verifier::external_body]
fn layer_is_empty(m: &im::HashMap<String, usize>) -> (r: bool)
    ensures
        r == layer_table(*m).dom().is_empty(),
{
    m.is_empty()
}

/// Relies on im::HashMap::clone: an O(1) structurally shared copy holding
/// exactly the same bindings.
#[verifier::external_body]
fn layer_clone(m: &im::HashMap<String, usize>) -> (r: im::HashMap<String, usize>)
    ensures
        layer_table(r) == layer_table(*m),
{
    m.clone()
}

/// Relies on std::sync::Arc::clone: the returned pointer shares the very
/// same value.
#[verifier::external_body]
fn share_node(a: &Arc<SymbolTable>) -> (r: Arc<SymbolTable>)
    ensures
        r == *a,
{
    Arc::clone(a)
}

/// A symbol table implementation supporting snapshots, i.e. an O(1) cloning
/// operation.
pub struct SymbolTable {
    /// This layer of the symbol table.
    symbols: im::HashMap<String, usize>,
    /// The depth of this symbol table.
    depth: usize,
    /// A link to the previous layer's table, forming a singly-linked list.
    prev: Option<Arc<SymbolTable>>,
}

impl SymbolTable {
    /// The states saved by the still-open scopes, outermost first: one per
    /// node of the frozen ancestor chain.
    pub closed spec fn saved_states(self) -> Seq<Map<Seq<char>, usize>>
        decreases self,
    {
        match self.prev {
            None => Seq::empty(),
            Some(p) => (*p).saved_states().push(layer_table((*p).symbols)),
        }
    }

    /// Well-formedness: the recorded depth matches the length of the
    /// ancestor chain, at every node.
    pub closed spec fn wf(self) -> bool
        decreases self,
    {
        &&& self.depth == self.saved_states().len()
        &&& match self.prev {
            None => true,
            Some(p) => (*p).wf(),
        }
    }

    /// Create a new, empty symbol table.
    pub fn new() -> (r: SymbolTable)
        ensures
            r.inv(),
            r.st() == st_empty::<Seq<char>, usize>(),
    {
        let r = SymbolTable { symbols: layer_new(), depth: 0, prev: None };
        proof {
            assert(r.st() =~= st_empty::<Seq<char>, usize>());
        }
        r
    }

    /// Get a counted pointer to the previous layer's table, if there is any.
    pub fn get_prev(&self) -> (r: Option<&Arc<SymbolTable>>)
        requires
            self.inv(),
        ensures
            match r {
                Some(p) => self.st().saved.len() > 0 && (**p).inv() && (**p).st() == st_pop(
                    self.st(),
                ),
                None => self.st().saved.len() == 0,
            },
    {
        proof {
            if self.prev is Some {
                self.lemma_parent_is_pop();
            }
        }
        self.prev.as_ref()
    }

    /// Get a new symbol table extending this one: the receiver becomes the
    /// frozen previous layer of the result.
    pub fn extend(self) -> (r: SymbolTable)
        requires
            self.inv(),
            self.st().saved.len() < usize::MAX,
        ensures
            r.inv(),
            r.st() == st_push(self.st()),
    {
        let symbols = layer_clone(&self.symbols);
        let depth = self.depth + 1;
        let r = SymbolTable { symbols, depth, prev: Some(Arc::new(self)) };
        proof {
            assert(r.st() =~= st_push(self.st()));
        }
        r
    }

    /// The parent node, when there is one, holds exactly the state that a
    /// `pop` would restore.
    proof fn lemma_parent_is_pop(self)
        requires
            self.wf(),
            self.prev is Some,
        ensures
            self.st().saved.len() > 0,
            (*self.prev->Some_0).wf(),
            (*self.prev->Some_0).st() == st_pop(self.st()),
    {
        let p = *self.prev->Some_0;
        assert(self.saved_states() == p.saved_states().push(layer_table(p.symbols)));
        assert(self.saved_states().drop_last() =~= p.saved_states());
        assert(p.st() =~= st_pop(self.st()));
    }
}

impl Clone for SymbolTable {
    /// An O(1) copy: the persistent current layer is structurally shared and
    /// the ancestor chain's reference count is bumped; the clone's state is
    /// the same, and later mutation of either handle never affects the other.
    fn clone(&self) -> (r: Self)
        ensures
            r.st() == self.st(),
            self.inv() ==> r.inv(),
    {
        let prev = match &self.prev {
            None => None,
            Some(a) => Some(share_node(a)),
        };
        let r = SymbolTable { symbols: layer_clone(&self.symbols), depth: self.depth, prev };
        proof {
            assert(r.saved_states() == self.saved_states());
            assert(r.st() =~= self.st());
        }
        r
    }
}

impl Default for SymbolTable {
    fn default() -> (r: SymbolTable)
        ensures
            r.inv(),
            r.st() == st_empty::<Seq<char>, usize>(),
    {
        SymbolTable::new()
    }
}

impl SymbolMap<String> for SymbolTable {
    type Value = usize;

    closed spec fn st(&self) -> ScopeState<Seq<char>, usize> {
        ScopeState { saved: self.saved_states(), cur: layer_table(self.symbols) }
    }

    closed spec fn inv(&self) -> bool {
        self.wf()
    }

    fn insert(&mut self, key: String, value: usize) {
        layer_insert(&mut self.symbols, key, value);
    }

    fn get(&self, key: &String) -> (r: Option<&usize>) {
        layer_get(&self.symbols, key)
    }

    fn contains_key(&self, key: &String) -> (r: bool) {
        layer_contains(&self.symbols, key)
    }

    fn is_empty(&self) -> (r: bool) {
        layer_is_empty(&self.symbols)
    }

    fn try_get_mut(&mut self, key: &String) -> (r: Option<&mut usize>) {
        layer_get_mut(&mut self.symbols, key)
    }

    fn push(&mut self) {
        let snapshot = self.clone();
        self.prev = Some(Arc::new(snapshot));
        self.depth = self.depth + 1;
        proof {
            assert(self.st() =~= st_push(old(self).st()));
        }
    }

    fn pop(&mut self) {
        let restored = match &self.prev {
            None => None,
            Some(a) => {
                proof {
                    self.lemma_parent_is_pop();
                }
                Some((**a).clone())
            },
        };
        if let Some(t) = restored {
            *self = t;
        }
    }

    fn depth(&self) -> (d: usize) {
        self.depth
    }
}

impl MutSymbolMap<String> for SymbolTable {
    fn get_mut(&mut self, key: &String) -> (r: Option<&mut usize>) {
        layer_get_mut(&mut self.symbols, key)
    }
}

impl SymbolStack<String> for SymbolTable {
    fn prev(&self) -> (r: Option<&Self>) {
        match &self.prev {
            None => None,
            Some(a) => {
                proof {
                    self.lemma_parent_is_pop();
                }
                Some(&**a)
            },
        }
    }
}

} // verus!
