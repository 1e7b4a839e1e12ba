//! Scoped key/value lookup engines ("symbol tables") for language tools.
//!
//! A symbol table behaves like a stack of maps: `insert` binds a name at the
//! current lexical scope, `get` sees the innermost live binding, `push` opens
//! a scope and `pop` closes it, restoring exactly the state from before the
//! matching `push`.  Two engines implement this contract: an undo-log engine
//! in [`fast`], optimized for raw mutation speed under single ownership, and
//! a persistent snapshot engine, in a thread-safe flavor in [`snap`] and a
//! single-thread flavor in [`local`], optimized for O(1) cloning of a whole
//! table.  The common contract is stated over the abstract scope-state
//! [`model`], so the laws proved there hold of every engine.
use vstd::prelude::*;

pub mod fast;
pub mod local;
pub mod model;
pub mod snap;
pub mod testing;

use crate::model::{st_depth, st_get, st_insert, st_pop, st_push, ScopeState};

verus! {

/// A symbol table indexed by keys of type `K`: a stack of maps.
///
/// Every operation's effect is stated on [`ScopeState`], the abstract state
/// of the table, so that the laws in [`model`] apply to every implementor.
pub trait SymbolMap<K: View>: Sized {
    /// The value stored in this symbol table.
    type Value;

    /// The abstract state of the table: visible bindings plus saved scopes.
    spec fn st(&self) -> ScopeState<<K as View>::V, Self::Value>;

    /// The engine's internal well-formedness; established by constructors
    /// and preserved by every operation.
    spec fn inv(&self) -> bool;

    /// Insert a key/value pair into this symbol table at the current level.
    fn insert(&mut self, key: K, value: Self::Value)
        requires
            old(self).inv(),
        ensures
            final(self).inv(),
            final(self).st() == st_insert(old(self).st(), key@, value),
    ;

    /// Get the most recent definition of a key in this symbol table.
    fn get(&self, key: &K) -> (r: Option<&Self::Value>)
        requires
            self.inv(),
        ensures
            match r {
                Some(v) => st_get(self.st(), key@) == Some(*v),
                None => st_get(self.st(), key@) is None,
            },
    ;

    /// Whether this symbol table contains this key.
    fn contains_key(&self, key: &K) -> (r: bool)
        requires
            self.inv(),
        ensures
            r == st_get(self.st(), key@) is Some,
    ;

    /// Whether this symbol table is empty.
    fn is_empty(&self) -> (r: bool)
        requires
            self.inv(),
        ensures
            r == self.st().cur.dom().is_empty(),
    ;

    /// Try to get a mutable reference to the definition of a key in the top
    /// level of this symbol table.
    ///
    /// May decline for arbitrary reasons, to avoid, e.g., corrupting an
    /// engine's undo discipline; a caller that is refused falls back to
    /// `insert`.
    fn try_get_mut(&mut self, key: &K) -> (r: Option<&mut Self::Value>)
        requires
            old(self).inv(),
        ensures
            final(self).inv(),
            match r {
                Some(v) => st_get(old(self).st(), key@) == Some(*v) && final(self).st()
                    == st_insert(old(self).st(), key@, *final(v)),
                None => final(self).st() == old(self).st(),
            },
    ;

    /// Push a level onto this symbol table.
    fn push(&mut self)
        requires
            old(self).inv(),
            st_depth(old(self).st()) < usize::MAX,
        ensures
            final(self).inv(),
            final(self).st() == st_push(old(self).st()),
    ;

    /// Pop a level from this symbol table, restoring the state saved by the
    /// matching push; at depth 0 this is a no-op.
    ///
    /// Note that this is *not* guaranteed to drop all elements stored in the
    /// level!
    fn pop(&mut self)
        requires
            old(self).inv(),
        ensures
            final(self).inv(),
            final(self).st() == st_pop(old(self).st()),
    ;

    /// Get the current depth of this symbol table.
    fn depth(&self) -> (d: usize)
        requires
            self.inv(),
        ensures
            d == st_depth(self.st()),
    ;
}

/// A symbol table in which entries may be infallibly mutated: `get_mut`
/// succeeds exactly when the key is currently bound.
pub trait MutSymbolMap<K: View>: SymbolMap<K> {
    /// Get a mutable reference to the definition of a key in the top level
    /// of this symbol table.
    fn get_mut(&mut self, key: &K) -> (r: Option<&mut Self::Value>)
        requires
            old(self).inv(),
        ensures
            final(self).inv(),
            r is Some == st_get(old(self).st(), key@) is Some,
            match r {
                Some(v) => st_get(old(self).st(), key@) == Some(*v) && final(self).st()
                    == st_insert(old(self).st(), key@, *final(v)),
                None => final(self).st() == old(self).st(),
            },
    ;
}

/// A stack-like symbol table in which a read-only reference to the
/// immediately enclosing scope's state may be obtained without popping.
pub trait SymbolStack<K: View>: SymbolMap<K> {
    /// Get the previous layer of this symbol table.
    fn prev(&self) -> (r: Option<&Self>)
        requires
            self.inv(),
        ensures
            match r {
                Some(p) => st_depth(self.st()) > 0 && p.inv() && p.st() == st_pop(self.st()),
                None => st_depth(self.st()) == 0,
            },
    ;
}

} // verus!
