//! A symbol table implementation optimized for speed.
//!
//! The table keeps one stack of values per key in an insertion-ordered map,
//! and a single flat journal of undo events.  Each `insert` pushes onto the
//! key's stack and records how to reverse itself: a shadow marker naming the
//! key's slot, or a bump of the current scope's new-key counter.  `pop`
//! drains the journal back to the counter written by the matching `push`,
//! popping one shadowed value per marker and then truncating the newly
//! created keys from the tail of the map, which restores exactly the state
//! saved at the `push`.  Bindings made at depth 0 are permanent and are
//! never journalled.
use vstd::prelude::*;

use crate::model::{st_empty, st_insert, st_pop, st_push, ScopeState};
use crate::SymbolMap;
use indexmap::IndexMap;

verus! {

/// The contents of the insertion-ordered map, in order: for each key, the
/// key's characters and its stack of values, oldest first.
pub type Entries = Seq<(Seq<char>, Seq<usize>)>;

#[verifier::external_type_specification]
#[verifier::external_body]
#[verifier::reject_recursive_types(K)]
#[verifier::reject_recursive_types(V)]
#[verifier::reject_recursive_types(S)]
pub struct ExIndexMap<K, V, S>(indexmap::IndexMap<K, V, S>);

/// What the insertion-ordered map holds, as a sequence of entries in
/// insertion order.
pub uninterp spec fn sym_entries(m: IndexMap<String, Vec<usize>>) -> Entries;

/// Whether some entry has this key.
pub open spec fn has_key(es: Entries, k: Seq<char>) -> bool {
    exists|i: int| 0 <= i < es.len() && es[i].0 == k
}

/// The position of the entry with this key; meaningful when the keys are
/// distinct and the key is present.
pub open spec fn key_at(es: Entries, k: Seq<char>) -> int {
    choose|i: int| 0 <= i < es.len() && es[i].0 == k
}

/// The visible bindings: each present key maps to the top of its stack.
pub open spec fn stack_table(es: Entries) -> Map<Seq<char>, usize> {
    Map::new(|k: Seq<char>| has_key(es, k), |k: Seq<char>| es[key_at(es, k)].1.last())
}

/// No two entries share a key.
pub open spec fn keys_distinct(es: Entries) -> bool {
    forall|i: int, j: int| 0 <= i < j < es.len() ==> es[i].0 != es[j].0
}

/// Every present key has at least one value: an emptied stack's key is
/// always removed with it.
pub open spec fn stacks_nonempty(es: Entries) -> bool {
    forall|i: int| 0 <= i < es.len() ==> es[i].1.len() >= 1
}

/// The entries after one shadowed value is popped back off.
pub open spec fn undo_shadow(es: Entries, ix: int) -> Entries {
    es.update(ix, (es[ix].0, es[ix].1.drop_last()))
}

/// The entries after one more value is pushed onto the stack at `ix`.
pub open spec fn push_value_spec(es: Entries, ix: int, value: usize) -> Entries {
    es.update(ix, (es[ix].0, es[ix].1.push(value)))
}

/// The entries after a brand-new key is appended at the end.
pub open spec fn append_key_spec(es: Entries, k: Seq<char>, value: usize) -> Entries {
    es.push((k, seq![value]))
}

/// One event of the undo journal.
#[derive(Clone, Copy)]
pub enum ScopeEntry {
    /// A repeated insert shadowed the key at this slot: on scope exit, pop
    /// one value off that key's stack.
    Shadow(usize),
    /// The sentinel written by `push`: how many brand-new keys this scope
    /// created, to be truncated from the tail of the map on scope exit.
    NewKeys(usize),
}

/// The number of scope sentinels in the journal: one per open scope.
pub open spec fn count_new(j: Seq<ScopeEntry>) -> nat
    decreases j.len(),
{
    if j.len() == 0 {
        0
    } else {
        count_new(j.drop_last()) + (if j.last() is NewKeys {
            1nat
        } else {
            0nat
        })
    }
}

/// The journal undoes correctly: replaying it from the tail turns the
/// current entries into each saved snapshot in turn, one scope per
/// sentinel.
pub open spec fn journal_ok(es: Entries, j: Seq<ScopeEntry>, snaps: Seq<Entries>) -> bool
    decreases j.len(),
{
    if j.len() == 0 {
        snaps.len() == 0
    } else {
        snaps.len() > 0 && match j.last() {
            ScopeEntry::Shadow(ix) => ix < es.len() && es[ix as int].1.len() >= 2 && journal_ok(
                undo_shadow(es, ix as int),
                j.drop_last(),
                snaps,
            ),
            ScopeEntry::NewKeys(c) => c <= es.len() && snaps.last() == es.take(es.len() - c)
                && journal_ok(snaps.last(), j.drop_last(), snaps.drop_last()),
        }
    }
}

/// Position `p` holds the innermost scope's sentinel: a `NewKeys` entry
/// followed only by shadow markers.
pub open spec fn sentinel_ok(j: Seq<ScopeEntry>, p: int) -> bool {
    &&& 0 <= p < j.len()
    &&& j[p] is NewKeys
    &&& forall|i: int| p < i < j.len() ==> j[i] is Shadow
}

/// Relies on indexmap::IndexMap::with_capacity: the constructed map is
/// empty.
#[verifier::external_body]
fn symbols_new(capacity: usize) -> (r: IndexMap<String, Vec<usize>>)
    ensures
        sym_entries(r).len() == 0,
{
    IndexMap::with_capacity(capacity)
}

/// Relies on indexmap::IndexMap::len: the number of entries.
#[verifier::external_body]
fn symbols_len(m: &IndexMap<String, Vec<usize>>) -> (n: usize)
    ensures
        n == sym_entries(*m).len(),
{
    m.len()
}

/// Relies on indexmap::IndexMap::get_index_of: the position of the key's
/// entry in the insertion order, found by `String` equality.
#[verifier::external_body]
fn symbols_index_of(m: &IndexMap<String, Vec<usize>>, key: &String) -> (r: Option<usize>)
    ensures
        match r {
            Some(ix) => ix < sym_entries(*m).len() && sym_entries(*m)[ix as int].0 == key@,
            None => !has_key(sym_entries(*m), key@),
        },
{
    m.get_index_of(key)
}

/// Relies on indexmap::IndexMap::get: the per-key stack stored for the key,
/// found by `String` equality.
#[verifier::external_body]
fn symbols_get<'a>(m: &'a IndexMap<String, Vec<usize>>, key: &String) -> (r: Option<
    &'a Vec<usize>,
>)
    ensures
        match r {
            Some(stack) => exists|i: int|
                0 <= i < sym_entries(*m).len() && #[trigger] sym_entries(*m)[i].0 == key@
                    && sym_entries(*m)[i].1 == stack@,
            None => !has_key(sym_entries(*m), key@),
        },
{
    m.get(key)
}

/// Relies on indexmap::IndexMap::get_index_mut and Vec::push: appends one
/// value to the per-key stack at the given position.
#[verifier::external_body]
fn symbols_push_value(m: &mut IndexMap<String, Vec<usize>>, ix: usize, value: usize)
    requires
        ix < sym_entries(*old(m)).len(),
    ensures
        sym_entries(*final(m)) == push_value_spec(sym_entries(*old(m)), ix as int, value),
{
    if let Some((_, stack)) = m.get_index_mut(ix) {
        stack.push(value);
    }
}

/// Relies on indexmap::IndexMap::get_index_mut and Vec::pop: removes the
/// top value of the per-key stack at the given position.
#[verifier::external_body]
fn symbols_pop_value(m: &mut IndexMap<String, Vec<usize>>, ix: usize)
    requires
        ix < sym_entries(*old(m)).len(),
        sym_entries(*old(m))[ix as int].1.len() >= 1,
    ensures
        sym_entries(*final(m)) == undo_shadow(sym_entries(*old(m)), ix as int),
{
    if let Some((_, stack)) = m.get_index_mut(ix) {
        stack.pop();
    }
}

/// Relies on indexmap::IndexMap::insert: a key not yet in the map is
/// appended last in the insertion order, here bound to a one-value stack.
#[verifier::external_body]
fn symbols_append(m: &mut IndexMap<String, Vec<usize>>, key: String, value: usize)
    requires
        !has_key(sym_entries(*old(m)), key@),
    ensures
        sym_entries(*final(m)) == append_key_spec(sym_entries(*old(m)), key@, value),
{
    m.insert(key, vec![value]);
}

/// Relies on indexmap::IndexMap::pop: removes the last entry in the
/// insertion order, preserving the order of the rest.
#[verifier::external_body]
fn symbols_pop_entry(m: &mut IndexMap<String, Vec<usize>>)
    requires
        sym_entries(*old(m)).len() >= 1,
    ensures
        sym_entries(*final(m)) == sym_entries(*old(m)).drop_last(),
{
    m.pop();
}

/// With distinct keys, `key_at` finds exactly the entry that holds the key.
proof fn lemma_key_at(es: Entries, k: Seq<char>, i: int)
    requires
        keys_distinct(es),
        0 <= i < es.len(),
        es[i].0 == k,
    ensures
        has_key(es, k),
        key_at(es, k) == i,
{
    assert(has_key(es, k));
    let j = key_at(es, k);
    if j < i {
        assert(es[j].0 != es[i].0);
    } else if i < j {
        assert(es[i].0 != es[j].0);
    }
}

/// Pushing a value onto an existing key's stack updates the visible table
/// at that key alone.
proof fn lemma_table_push_value(es: Entries, ix: int, v: usize)
    requires
        keys_distinct(es),
        0 <= ix < es.len(),
    ensures
        stack_table(push_value_spec(es, ix, v)) == stack_table(es).insert(es[ix].0, v),
        keys_distinct(push_value_spec(es, ix, v)),
        stacks_nonempty(es) ==> stacks_nonempty(push_value_spec(es, ix, v)),
{
    let k0 = es[ix].0;
    let es2 = push_value_spec(es, ix, v);
    let m1 = stack_table(es2);
    let m2 = stack_table(es).insert(k0, v);
    assert forall|i: int| 0 <= i < es2.len() implies #[trigger] es2[i].0 == es[i].0 by {}
    assert(keys_distinct(es2));
    assert(has_key(es, k0));
    assert forall|k: Seq<char>| #[trigger] has_key(es2, k) implies has_key(es, k) by {
        let i = choose|i: int| 0 <= i < es2.len() && es2[i].0 == k;
        assert(es[i].0 == k);
    }
    assert forall|k: Seq<char>| #[trigger] has_key(es, k) implies has_key(es2, k) by {
        let i = choose|i: int| 0 <= i < es.len() && es[i].0 == k;
        assert(es2[i].0 == k);
    }
    assert(m1.dom() =~= m2.dom());
    assert forall|k: Seq<char>| #[trigger] m1.dom().contains(k) implies m1[k] == m2[k] by {
        assert(has_key(es, k));
        let i = choose|i: int| 0 <= i < es.len() && es[i].0 == k;
        lemma_key_at(es2, k, i);
        lemma_key_at(es, k, i);
        if k == k0 {
            lemma_key_at(es, k, ix);
            lemma_key_at(es2, k, ix);
            assert(es2[ix].1 == es[ix].1.push(v));
        } else {
            assert(i != ix);
            assert(es2[i].1 == es[i].1);
        }
    }
    assert(m1 =~= m2);
}

/// Appending a brand-new key binds it in the visible table and touches no
/// other key.
proof fn lemma_table_append(es: Entries, k: Seq<char>, v: usize)
    requires
        keys_distinct(es),
        !has_key(es, k),
    ensures
        stack_table(append_key_spec(es, k, v)) == stack_table(es).insert(k, v),
        keys_distinct(append_key_spec(es, k, v)),
        stacks_nonempty(es) ==> stacks_nonempty(append_key_spec(es, k, v)),
{
    let es2 = append_key_spec(es, k, v);
    let m1 = stack_table(es2);
    let m2 = stack_table(es).insert(k, v);
    assert(es2[es.len() as int].0 == k);
    assert forall|q: Seq<char>| #[trigger] has_key(es2, q) implies has_key(es, q) || q == k by {
        let i = choose|i: int| 0 <= i < es2.len() && es2[i].0 == q;
        if i < es.len() {
            assert(es[i].0 == q);
        }
    }
    assert forall|q: Seq<char>| #[trigger] has_key(es, q) implies has_key(es2, q) by {
        let i = choose|i: int| 0 <= i < es.len() && es[i].0 == q;
        assert(es2[i].0 == q);
    }
    assert forall|i: int, j: int| 0 <= i < j < es2.len() implies es2[i].0 != es2[j].0 by {
        if j == es.len() {
            assert(es[i].0 == es2[i].0);
            if es2[i].0 == k {
                assert(has_key(es, k));
            }
        }
    }
    assert(keys_distinct(es2));
    assert(m1.dom() =~= m2.dom());
    assert forall|q: Seq<char>| #[trigger] m1.dom().contains(q) implies m1[q] == m2[q] by {
        if q == k {
            lemma_key_at(es2, q, es.len() as int);
            assert(es2[es.len() as int].1 == seq![v]);
            assert(seq![v].last() == v);
        } else {
            assert(has_key(es, q));
            let i = choose|i: int| 0 <= i < es.len() && es[i].0 == q;
            lemma_key_at(es2, q, i);
            lemma_key_at(es, q, i);
            assert(es2[i].1 == es[i].1);
        }
    }
    assert(m1 =~= m2);
}

/// Appending one journal event adds one sentinel or none.
proof fn lemma_count_new_push(j: Seq<ScopeEntry>, e: ScopeEntry)
    ensures
        count_new(j.push(e)) == count_new(j) + (if e is NewKeys {
            1nat
        } else {
            0nat
        }),
{
    assert(j.push(e).drop_last() =~= j);
    assert(j.push(e).last() == e);
}

/// There are never more sentinels than journal events.
proof fn lemma_count_new_le_len(j: Seq<ScopeEntry>)
    ensures
        count_new(j) <= j.len(),
    decreases j.len(),
{
    if j.len() > 0 {
        lemma_count_new_le_len(j.drop_last());
    }
}

/// Extending a journal prefix by one event counts that event's sentinel.
proof fn lemma_count_new_take_step(j: Seq<ScopeEntry>, i: int)
    requires
        0 <= i < j.len(),
    ensures
        count_new(j.take(i + 1)) == count_new(j.take(i)) + (if j[i] is NewKeys {
            1nat
        } else {
            0nat
        }),
{
    assert(j.take(i + 1).drop_last() =~= j.take(i));
    assert(j.take(i + 1).last() == j[i]);
}

/// Replacing a sentinel by a sentinel leaves the sentinel count unchanged.
proof fn lemma_count_new_update(j: Seq<ScopeEntry>, p: int, e: ScopeEntry)
    requires
        0 <= p < j.len(),
        j[p] is NewKeys,
        e is NewKeys,
    ensures
        count_new(j.update(p, e)) == count_new(j),
    decreases j.len(),
{
    let j2 = j.update(p, e);
    if p == j.len() - 1 {
        assert(j2.drop_last() =~= j.drop_last());
    } else {
        assert(j2.drop_last() =~= j.drop_last().update(p, e));
        assert(j2.last() == j.last());
        lemma_count_new_update(j.drop_last(), p, e);
    }
}

/// A journal that undoes no scope is empty.
proof fn lemma_journal_empty(es: Entries, j: Seq<ScopeEntry>, snaps: Seq<Entries>)
    requires
        journal_ok(es, j, snaps),
        snaps.len() == 0,
    ensures
        j.len() == 0,
{
}

/// Recording a shadow marker after its value was pushed keeps the journal
/// sound: undoing the marker pops that very value.
proof fn lemma_journal_push_shadow(
    es: Entries,
    j: Seq<ScopeEntry>,
    snaps: Seq<Entries>,
    ix: usize,
    v: usize,
)
    requires
        journal_ok(es, j, snaps),
        snaps.len() > 0,
        ix < es.len(),
        stacks_nonempty(es),
    ensures
        journal_ok(push_value_spec(es, ix as int, v), j.push(ScopeEntry::Shadow(ix)), snaps),
{
    let es2 = push_value_spec(es, ix as int, v);
    let j2 = j.push(ScopeEntry::Shadow(ix));
    assert(j2.drop_last() =~= j);
    assert(es2[ix as int].1 == es[ix as int].1.push(v));
    assert(es2[ix as int].1.len() >= 2);
    assert(es2[ix as int].1.drop_last() =~= es[ix as int].1);
    assert(undo_shadow(es2, ix as int) =~= es);
}

/// Opening a scope writes a zero sentinel and saves the current entries:
/// the journal stays sound.
proof fn lemma_journal_push_scope(es: Entries, j: Seq<ScopeEntry>, snaps: Seq<Entries>)
    requires
        journal_ok(es, j, snaps),
    ensures
        journal_ok(es, j.push(ScopeEntry::NewKeys(0)), snaps.push(es)),
{
    let j2 = j.push(ScopeEntry::NewKeys(0));
    assert(j2.drop_last() =~= j);
    assert(es.take(es.len() - 0) =~= es);
    assert(snaps.push(es).drop_last() =~= snaps);
}

/// The innermost sentinel's count never exceeds the number of entries.
proof fn lemma_sentinel_count_bound(es: Entries, j: Seq<ScopeEntry>, snaps: Seq<Entries>, p: int)
    requires
        journal_ok(es, j, snaps),
        sentinel_ok(j, p),
    ensures
        j[p]->NewKeys_0 <= es.len(),
    decreases j.len() - p,
{
    if p == j.len() - 1 {
    } else {
        let ix = j.last()->Shadow_0;
        assert(j.drop_last()[p] == j[p]);
        lemma_sentinel_count_bound(undo_shadow(es, ix as int), j.drop_last(), snaps, p);
    }
}

/// Creating a brand-new key inside a scope appends the entry at the tail
/// and bumps the scope's sentinel: the journal stays sound, because
/// truncating one more tail entry removes exactly the new key.
proof fn lemma_journal_new_key(
    es: Entries,
    j: Seq<ScopeEntry>,
    snaps: Seq<Entries>,
    p: int,
    k: Seq<char>,
    v: usize,
    c2: usize,
)
    requires
        journal_ok(es, j, snaps),
        sentinel_ok(j, p),
        c2 == j[p]->NewKeys_0 + 1,
    ensures
        journal_ok(append_key_spec(es, k, v), j.update(p, ScopeEntry::NewKeys(c2)), snaps),
    decreases j.len() - p,
{
    let es2 = append_key_spec(es, k, v);
    let j2 = j.update(p, ScopeEntry::NewKeys(c2));
    let c = j[p]->NewKeys_0;
    if p == j.len() - 1 {
        assert(j2.last() == ScopeEntry::NewKeys(c2));
        assert(j2.drop_last() =~= j.drop_last());
        lemma_count_new_le_len(j);
        assert(es2.len() - c2 == es.len() - c);
        assert(es2.take(es.len() - c) =~= es.take(es.len() - c));
        assert(snaps.last() == es2.take(es2.len() - c2));
    } else {
        let ix = j.last()->Shadow_0;
        assert(j.drop_last()[p] == j[p]);
        lemma_journal_new_key(undo_shadow(es, ix as int), j.drop_last(), snaps, p, k, v, c2);
        assert(j2.last() == j.last());
        assert(j2.drop_last() =~= j.drop_last().update(p, ScopeEntry::NewKeys(c2)));
        assert(es2[ix as int].1 == es[ix as int].1);
        assert(undo_shadow(es2, ix as int) =~= undo_shadow(es, ix as int).push((k, seq![v])));
        assert(undo_shadow(es2, ix as int) =~= append_key_spec(undo_shadow(es, ix as int), k, v));
    }
}

/// Every shadow marker above the innermost sentinel names a live slot.
proof fn lemma_trailing_shadows_in_range(
    es: Entries,
    j: Seq<ScopeEntry>,
    snaps: Seq<Entries>,
    p: int,
)
    requires
        journal_ok(es, j, snaps),
        sentinel_ok(j, p),
    ensures
        forall|t: int| p < t < j.len() ==> (#[trigger] j[t])->Shadow_0 < es.len(),
    decreases j.len() - p,
{
    if p < j.len() - 1 {
        let ix = j.last()->Shadow_0;
        lemma_trailing_shadows_in_range(undo_shadow(es, ix as int), j.drop_last(), snaps, p);
        assert forall|t: int| p < t < j.len() implies (#[trigger] j[t])->Shadow_0 < es.len() by {
            if t < j.len() - 1 {
                assert(j.drop_last()[t] == j[t]);
            }
        }
    }
}

/// The error returned by the strict `try_insert` when the key already has a
/// binding created at the exact current depth; it hands the rejected value
/// back to the caller for disposal or retry.
pub struct AlreadyDefined {
    /// The value that was not inserted.
    pub value: usize,
}

/// A symbol table implementation optimized for speed: insertion-ordered
/// per-key stacks plus a flat undo journal.
pub struct SymbolTable {
    symbols: IndexMap<String, Vec<usize>>,
    depth: usize,
    insertion_ix: usize,
    insertions: Vec<ScopeEntry>,
    snapshots: Ghost<Seq<Entries>>,
}

impl SymbolTable {
    /// Well-formedness: keys are unique, every stack is populated, and the
    /// journal correctly undoes back to each saved snapshot in turn.
    pub closed spec fn wf(self) -> bool {
        let es = sym_entries(self.symbols);
        &&& keys_distinct(es)
        &&& stacks_nonempty(es)
        &&& journal_ok(es, self.insertions@, self.snapshots@)
        &&& count_new(self.insertions@) == self.snapshots@.len()
        &&& self.snapshots@.len() == self.depth
        &&& (self.depth > 0 ==> sentinel_ok(self.insertions@, self.insertion_ix as int))
    }

    /// Create a new symbol table having the given capacity.
    pub fn with_capacity(n: usize) -> (r: SymbolTable)
        ensures
            r.inv(),
            r.st() == st_empty::<Seq<char>, usize>(),
    {
        let r = SymbolTable {
            symbols: symbols_new(n),
            depth: 0,
            insertion_ix: 0,
            insertions: Vec::new(),
            snapshots: Ghost(Seq::empty()),
        };
        proof {
            assert(stack_table(sym_entries(r.symbols)).dom() =~= Set::<Seq<char>>::empty());
            assert(r.st() =~= st_empty::<Seq<char>, usize>());
        }
        r
    }

    /// Create a new, empty symbol table.
    pub fn new() -> (r: SymbolTable)
        ensures
            r.inv(),
            r.st() == st_empty::<Seq<char>, usize>(),
    {
        Self::with_capacity(0)
    }

    /// Whether the key already has a binding that was created at the exact
    /// current depth: at the root every present key qualifies, since root
    /// bindings are permanent; inside a scope, a key qualifies when it sits
    /// in the scope's trailing new-key region or a shadow marker above the
    /// scope's sentinel names its slot.
    pub closed spec fn bound_at_current_depth(self, k: Seq<char>) -> bool {
        let es = sym_entries(self.symbols);
        let j = self.insertions@;
        if self.depth == 0 {
            has_key(es, k)
        } else {
            let c = j[self.insertion_ix as int]->NewKeys_0;
            (exists|i: int| es.len() - c <= i < es.len() && #[trigger] es[i].0 == k) || (exists|
                t: int,
            |
                self.insertion_ix < t < j.len() && #[trigger] j[t] is Shadow && j[t]->Shadow_0
                    < es.len() && es[j[t]->Shadow_0 as int].0 == k)
        }
    }

    /// Whether a shadow marker recorded inside the current scope names the
    /// given slot.
    fn scope_has_shadow(&self, ix: usize) -> (r: bool)
        requires
            self.wf(),
            self.depth > 0,
        ensures
            r == exists|t: int|
                self.insertion_ix < t < self.insertions@.len() && #[trigger] self.insertions@[t]
                    is Shadow && self.insertions@[t]->Shadow_0 == ix,
    {
        let ghost j = self.insertions@;
        let jl = self.insertions.len();
        proof {
            assert(self.insertion_ix < jl);
        }
        let mut t = self.insertion_ix + 1;
        let mut found = false;
        while t < self.insertions.len() && !found
            invariant
                self.insertion_ix < t <= j.len(),
                self.insertions@ == j,
                found ==> self.insertion_ix < t - 1 < j.len() && j[t - 1] is Shadow && j[t
                    - 1]->Shadow_0 == ix,
                !found ==> forall|u: int|
                    self.insertion_ix < u < t ==> !(#[trigger] j[u] is Shadow && j[u]->Shadow_0
                        == ix),
            decreases j.len() - t + (if found {
                0int
            } else {
                1int
            }),
        {
            match self.insertions[t] {
                ScopeEntry::Shadow(s) => {
                    if s == ix {
                        found = true;
                    }
                },
                ScopeEntry::NewKeys(_) => {},
            }
            t = t + 1;
        }
        found
    }

    /// Insert a key/value pair at the current level, unless the key already
    /// has a binding created at the exact current depth: then nothing
    /// changes and the rejected value comes back in the error.  Useful for
    /// languages that forbid re-declaration within one block.
    pub fn try_insert(&mut self, key: String, value: usize) -> (r: Result<(), AlreadyDefined>)
        requires
            old(self).inv(),
        ensures
            final(self).inv(),
            old(self).bound_at_current_depth(key@) ==> (r matches Err(e) && e.value == value
                && *final(self) == *old(self)),
            !old(self).bound_at_current_depth(key@) ==> r is Ok && final(self).st() == st_insert(
                old(self).st(),
                key@,
                value,
            ),
    {
        let ghost es0 = sym_entries(self.symbols);
        let ghost j0 = self.insertions@;
        let ix_opt = symbols_index_of(&self.symbols, &key);
        match ix_opt {
            None => {
                proof {
                    assert(!has_key(es0, key@));
                    if self.depth > 0 {
                        lemma_sentinel_count_bound(
                            es0,
                            j0,
                            self.snapshots@,
                            self.insertion_ix as int,
                        );
                    }
                    if self.bound_at_current_depth(key@) {
                        let es = sym_entries(self.symbols);
                        let j = self.insertions@;
                        if self.depth != 0 {
                            let cc = j[self.insertion_ix as int]->NewKeys_0;
                            if exists|i: int|
                                es.len() - cc <= i < es.len() && #[trigger] es[i].0 == key@ {
                                let i = choose|i: int|
                                    es.len() - cc <= i < es.len() && #[trigger] es[i].0 == key@;
                                assert(0 <= i < es.len());
                                assert(has_key(es, key@));
                            } else {
                                let t = choose|t: int|
                                    self.insertion_ix < t < j.len() && #[trigger] j[t] is Shadow
                                        && j[t]->Shadow_0 < es.len() && es[j[t]->Shadow_0 as int].0
                                        == key@;
                                assert(es[j[t]->Shadow_0 as int].0 == key@);
                                assert(has_key(es, key@));
                            }
                        }
                        assert(false);
                    }
                }
                self.insert(key, value);
                Ok(())
            },
            Some(ix) => {
                if self.depth == 0 {
                    proof {
                        assert(has_key(es0, key@));
                    }
                    return Err(AlreadyDefined { value });
                }
                let c = match self.insertions[self.insertion_ix] {
                    ScopeEntry::NewKeys(c) => c,
                    ScopeEntry::Shadow(_) => {
                        proof {
                            assert(false);
                        }
                        0
                    },
                };
                let n = symbols_len(&self.symbols);
                proof {
                    lemma_sentinel_count_bound(es0, j0, self.snapshots@, self.insertion_ix as int);
                }
                if ix >= n - c {
                    proof {
                        assert(es0[ix as int].0 == key@);
                    }
                    return Err(AlreadyDefined { value });
                }
                if self.scope_has_shadow(ix) {
                    proof {
                        let t = choose|t: int|
                            self.insertion_ix < t < j0.len() && #[trigger] j0[t] is Shadow
                                && j0[t]->Shadow_0 == ix;
                        lemma_trailing_shadows_in_range(
                            es0,
                            j0,
                            self.snapshots@,
                            self.insertion_ix as int,
                        );
                        assert(j0[t]->Shadow_0 < es0.len());
                        assert(es0[j0[t]->Shadow_0 as int].0 == key@);
                    }
                    return Err(AlreadyDefined { value });
                }
                proof {
                    if self.bound_at_current_depth(key@) {
                        let es = sym_entries(self.symbols);
                        let j = self.insertions@;
                        let cc = j[self.insertion_ix as int]->NewKeys_0;
                        lemma_key_at(es, key@, ix as int);
                        if exists|i: int|
                            es.len() - cc <= i < es.len() && #[trigger] es[i].0 == key@ {
                            let i = choose|i: int|
                                es.len() - cc <= i < es.len() && #[trigger] es[i].0 == key@;
                            lemma_key_at(es, key@, i);
                            assert(i == ix);
                        } else {
                            let t = choose|t: int|
                                self.insertion_ix < t < j.len() && #[trigger] j[t] is Shadow
                                    && j[t]->Shadow_0 < es.len() && es[j[t]->Shadow_0 as int].0
                                    == key@;
                            let s = j[t]->Shadow_0;
                            lemma_key_at(es, key@, s as int);
                            assert(s == ix);
                        }
                        assert(false);
                    }
                }
                self.insert(key, value);
                Ok(())
            },
        }
    }
}

impl Default for SymbolTable {
    fn default() -> (r: SymbolTable)
        ensures
            r.inv(),
            r.st() == st_empty::<Seq<char>, usize>(),
    {
        SymbolTable::new()
    }
}

impl SymbolMap<String> for SymbolTable {
    type Value = usize;

    closed spec fn st(&self) -> ScopeState<Seq<char>, usize> {
        ScopeState {
            saved: self.snapshots@.map_values(|es: Entries| stack_table(es)),
            cur: stack_table(sym_entries(self.symbols)),
        }
    }

    closed spec fn inv(&self) -> bool {
        self.wf()
    }

    fn insert(&mut self, key: String, value: usize) {
        let ghost kview = key@;
        let ghost es0 = sym_entries(self.symbols);
        let ghost j0 = self.insertions@;
        match symbols_index_of(&self.symbols, &key) {
            Some(ix) => {
                symbols_push_value(&mut self.symbols, ix, value);
                proof {
                    lemma_table_push_value(es0, ix as int, value);
                }
                if self.depth != 0 {
                    self.insertions.push(ScopeEntry::Shadow(ix));
                    proof {
                        lemma_count_new_push(j0, ScopeEntry::Shadow(ix));
                        lemma_journal_push_shadow(es0, j0, self.snapshots@, ix, value);
                    }
                } else {
                    proof {
                        lemma_journal_empty(es0, j0, self.snapshots@);
                    }
                }
            },
            None => {
                symbols_append(&mut self.symbols, key, value);
                proof {
                    lemma_table_append(es0, kview, value);
                }
                if self.depth != 0 {
                    let c = match self.insertions[self.insertion_ix] {
                        ScopeEntry::NewKeys(c) => c,
                        ScopeEntry::Shadow(_) => {
                            proof {
                                assert(false);
                            }
                            0
                        },
                    };
                    let n = symbols_len(&self.symbols);
                    proof {
                        lemma_sentinel_count_bound(es0, j0, self.snapshots@, self.insertion_ix as int);
                    }
                    let c2 = c + 1;
                    self.insertions[self.insertion_ix] = ScopeEntry::NewKeys(c2);
                    proof {
                        lemma_journal_new_key(
                            es0,
                            j0,
                            self.snapshots@,
                            self.insertion_ix as int,
                            kview,
                            value,
                            c2,
                        );
                        lemma_count_new_update(j0, self.insertion_ix as int, ScopeEntry::NewKeys(c2));
                    }
                } else {
                    proof {
                        lemma_journal_empty(es0, j0, self.snapshots@);
                    }
                }
            },
        }
        proof {
            assert(self.st() =~= st_insert(old(self).st(), kview, value));
        }
    }

    fn get(&self, key: &String) -> (r: Option<&usize>) {
        match symbols_get(&self.symbols, key) {
            None => None,
            Some(stack) => {
                proof {
                    let es = sym_entries(self.symbols);
                    let i = choose|i: int| 0 <= i < es.len() && es[i].0 == key@ && es[i].1 == stack@;
                    lemma_key_at(es, key@, i);
                }
                let n = stack.len();
                Some(&stack[n - 1])
            },
        }
    }

    fn contains_key(&self, key: &String) -> (r: bool) {
        symbols_index_of(&self.symbols, key).is_some()
    }

    fn is_empty(&self) -> (r: bool) {
        let n = symbols_len(&self.symbols);
        proof {
            let es = sym_entries(self.symbols);
            if es.len() == 0 {
                assert(stack_table(es).dom() =~= Set::<Seq<char>>::empty());
            } else {
                assert(has_key(es, es[0].0));
                assert(stack_table(es).dom().contains(es[0].0));
            }
        }
        n == 0
    }

    fn try_get_mut(&mut self, key: &String) -> (r: Option<&mut usize>) {
        // Handing out a mutable alias could not be told apart from a fresh
        // insert at pop time, so this engine forces updates through insert.
        None
    }

    fn push(&mut self) {
        let ghost es0 = sym_entries(self.symbols);
        let ghost j0 = self.insertions@;
        self.insertion_ix = self.insertions.len();
        self.insertions.push(ScopeEntry::NewKeys(0));
        self.snapshots = Ghost(self.snapshots@.push(es0));
        proof {
            lemma_count_new_le_len(j0);
        }
        self.depth = self.depth + 1;
        proof {
            lemma_count_new_push(j0, ScopeEntry::NewKeys(0));
            lemma_journal_push_scope(es0, j0, old(self).snapshots@);
            assert(self.st().saved =~= st_push(old(self).st()).saved);
            assert(self.st() =~= st_push(old(self).st()));
        }
    }

    fn pop(&mut self) {
        if self.depth == 0 {
            return;
        }
        let ghost snaps0 = self.snapshots@;
        let ghost d0 = self.depth as int;
        self.depth = self.depth - 1;
        let mut done = false;
        while !done
            invariant
                self.depth + 1 == d0,
                snaps0 == old(self).snapshots@,
                snaps0.len() == d0,
                d0 >= 1,
                keys_distinct(sym_entries(self.symbols)),
                stacks_nonempty(sym_entries(self.symbols)),
                !done ==> journal_ok(sym_entries(self.symbols), self.insertions@, snaps0),
                !done ==> count_new(self.insertions@) == d0,
                !done ==> self.snapshots@ == snaps0,
                done ==> sym_entries(self.symbols) == snaps0.last(),
                done ==> self.snapshots@ == snaps0.drop_last(),
                done ==> journal_ok(sym_entries(self.symbols), self.insertions@, self.snapshots@),
                done ==> count_new(self.insertions@) == d0 - 1,
            decreases self.insertions@.len() + (if done {
                0int
            } else {
                1int
            }),
        {
            proof {
                if self.insertions@.len() == 0 {
                    assert(snaps0.len() == 0);
                }
            }
            let ghost es_pre = sym_entries(self.symbols);
            let ghost j_pre = self.insertions@;
            let e = self.insertions.pop().unwrap();
            proof {
                assert(j_pre.last() == e);
                assert(self.insertions@ =~= j_pre.drop_last());
            }
            match e {
                ScopeEntry::Shadow(ix) => {
                    proof {
                        assert(es_pre[ix as int].1.len() >= 2);
                    }
                    symbols_pop_value(&mut self.symbols, ix);
                    proof {
                        let es_now = sym_entries(self.symbols);
                        assert(es_now == undo_shadow(es_pre, ix as int));
                        assert forall|i: int|
                            0 <= i < es_now.len() implies #[trigger] es_now[i].0 == es_pre[i].0 by {}
                        assert(keys_distinct(es_now));
                        assert forall|i: int|
                            0 <= i < es_now.len() implies #[trigger] es_now[i].1.len() >= 1 by {
                            if i != ix {
                                assert(es_now[i].1 == es_pre[i].1);
                            }
                        }
                    }
                },
                ScopeEntry::NewKeys(c) => {
                    let ghost es_s = sym_entries(self.symbols);
                    let ghost j_rest = j_pre.drop_last();
                    proof {
                        assert(c <= es_s.len());
                        assert(snaps0.last() == es_s.take(es_s.len() - c));
                        assert(es_s.take(es_s.len() as int) =~= es_s);
                        assert(journal_ok(snaps0.last(), j_rest, snaps0.drop_last()));
                        assert(count_new(j_rest) == d0 - 1);
                        assert(self.insertions@ == j_rest);
                    }
                    let mut removed: usize = 0;
                    while removed < c
                        invariant
                            removed <= c,
                            c <= es_s.len(),
                            sym_entries(self.symbols) == es_s.take(es_s.len() - removed),
                            self.insertions@ == j_rest,
                            self.snapshots@ == snaps0,
                            self.depth + 1 == d0,
                            snaps0 == old(self).snapshots@,
                            snaps0.len() == d0,
                            d0 >= 1,
                            keys_distinct(es_s),
                            stacks_nonempty(es_s),
                            snaps0.last() == es_s.take(es_s.len() - c),
                            journal_ok(snaps0.last(), j_rest, snaps0.drop_last()),
                            count_new(j_rest) == d0 - 1,
                        decreases c - removed,
                    {
                        proof {
                            assert(sym_entries(self.symbols).len() == es_s.len() - removed);
                        }
                        symbols_pop_entry(&mut self.symbols);
                        removed = removed + 1;
                        proof {
                            assert(es_s.take(es_s.len() - (removed - 1)).drop_last() =~= es_s.take(
                                es_s.len() - removed,
                            ));
                        }
                    }
                    self.snapshots = Ghost(snaps0.drop_last());
                    done = true;
                    proof {
                        assert(sym_entries(self.symbols) == es_s.take(es_s.len() - c));
                        assert(sym_entries(self.symbols) == snaps0.last());
                        assert forall|i: int, j: int|
                            0 <= i < j < sym_entries(self.symbols).len() implies sym_entries(
                            self.symbols,
                        )[i].0 != sym_entries(self.symbols)[j].0 by {
                            assert(es_s[i].0 != es_s[j].0);
                        }
                        assert forall|i: int|
                            0 <= i < sym_entries(self.symbols).len() implies sym_entries(
                            self.symbols,
                        )[i].1.len() >= 1 by {
                            assert(es_s[i].1.len() >= 1);
                        }
                    }
                },
            }
        }
        if self.depth > 0 {
            let ghost jf = self.insertions@;
            proof {
                assert(jf.take(jf.len() as int) =~= jf);
            }
            let mut i = self.insertions.len();
            let mut found = false;
            while !found
                invariant
                    0 <= i <= jf.len(),
                    self.insertions@ == jf,
                    count_new(jf) == self.depth,
                    self.depth > 0,
                    self.depth + 1 == d0,
                    snaps0 == old(self).snapshots@,
                    snaps0.len() == d0,
                    sym_entries(self.symbols) == snaps0.last(),
                    self.snapshots@ == snaps0.drop_last(),
                    keys_distinct(sym_entries(self.symbols)),
                    stacks_nonempty(sym_entries(self.symbols)),
                    journal_ok(sym_entries(self.symbols), jf, self.snapshots@),
                    !found ==> forall|t: int| i <= t < jf.len() ==> jf[t] is Shadow,
                    !found ==> count_new(jf.take(i as int)) == count_new(jf),
                    found ==> sentinel_ok(jf, self.insertion_ix as int),
                decreases i,
            {
                proof {
                    if i == 0 {
                        assert(jf.take(0) =~= Seq::<ScopeEntry>::empty());
                        assert(count_new(jf.take(0)) == 0);
                        assert(false);
                    }
                }
                i = i - 1;
                let e = self.insertions[i];
                match e {
                    ScopeEntry::NewKeys(_) => {
                        self.insertion_ix = i;
                        found = true;
                    },
                    ScopeEntry::Shadow(_) => {
                        proof {
                            lemma_count_new_take_step(jf, i as int);
                        }
                    },
                }
            }
        }
        proof {
            assert(self.st().saved =~= old(self).st().saved.drop_last());
            assert(self.st().cur == old(self).st().saved.last());
            assert(self.st() =~= st_pop(old(self).st()));
        }
    }

    fn depth(&self) -> (d: usize) {
        self.depth
    }
}

} // verus!
