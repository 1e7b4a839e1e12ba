//! The abstract model of a scoped symbol table.
//!
//! A table is modelled as a current map of visible bindings together with the
//! stack of maps saved by the scopes that are still open (innermost last).
//! Every engine's operations are specified as the corresponding transition on
//! this model, so the laws proved here hold of every engine.
use vstd::prelude::*;

verus! {

/// The abstract state of a scoped symbol table: the bindings visible now, and
/// the states to be restored by the open scopes, innermost last.
#[verifier::ext_equal]
#[verifier::reject_recursive_types(K)]
#[verifier::reject_recursive_types(V)]
pub struct ScopeState<K, V> {
    pub saved: Seq<Map<K, V>>,
    pub cur: Map<K, V>,
}

/// The state of a freshly constructed table: no bindings, no open scope.
pub open spec fn st_empty<K, V>() -> ScopeState<K, V> {
    ScopeState { saved: Seq::empty(), cur: Map::empty() }
}

/// `insert` binds a key at the current scope, leaving the saved states alone.
pub open spec fn st_insert<K, V>(s: ScopeState<K, V>, k: K, v: V) -> ScopeState<K, V> {
    ScopeState { saved: s.saved, cur: s.cur.insert(k, v) }
}

/// `get` returns the innermost live binding, if any.
pub open spec fn st_get<K, V>(s: ScopeState<K, V>, k: K) -> Option<V> {
    if s.cur.dom().contains(k) {
        Some(s.cur[k])
    } else {
        None
    }
}

/// The number of open scopes.
pub open spec fn st_depth<K, V>(s: ScopeState<K, V>) -> nat {
    s.saved.len()
}

/// `push` opens a scope: the current state is saved, and stays current.
pub open spec fn st_push<K, V>(s: ScopeState<K, V>) -> ScopeState<K, V> {
    ScopeState { saved: s.saved.push(s.cur), cur: s.cur }
}

/// `pop` closes the innermost scope, restoring the state saved by the
/// matching `push`; with no open scope it is a no-op.
pub open spec fn st_pop<K, V>(s: ScopeState<K, V>) -> ScopeState<K, V> {
    if s.saved.len() == 0 {
        s
    } else {
        ScopeState { saved: s.saved.drop_last(), cur: s.saved.last() }
    }
}

/// A sequence of `insert`s, applied first to last.
pub open spec fn st_inserts<K, V>(s: ScopeState<K, V>, kvs: Seq<(K, V)>) -> ScopeState<K, V>
    decreases kvs.len(),
{
    if kvs.len() == 0 {
        s
    } else {
        st_insert(st_inserts(s, kvs.drop_last()), kvs.last().0, kvs.last().1)
    }
}

/// A sequence of `pop`s.
pub open spec fn st_pops<K, V>(s: ScopeState<K, V>, n: nat) -> ScopeState<K, V>
    decreases n,
{
    if n == 0 {
        s
    } else {
        st_pops(st_pop(s), (n - 1) as nat)
    }
}

/// Opening a scope and binding one key in it, once per element of `vs`:
/// the shape of an N-deep nest of shadowing bindings of the same key.
pub open spec fn st_bind_nested<K, V>(s: ScopeState<K, V>, k: K, vs: Seq<V>) -> ScopeState<K, V>
    decreases vs.len(),
{
    if vs.len() == 0 {
        s
    } else {
        st_insert(st_push(st_bind_nested(s, k, vs.drop_last())), k, vs.last())
    }
}

/// A `push` or a `pop`, for counting scope movements.
pub enum ScopeOp {
    Push,
    Pop,
}

/// A sequence of `push`/`pop` operations, applied first to last.
pub open spec fn st_apply_ops<K, V>(s: ScopeState<K, V>, ops: Seq<ScopeOp>) -> ScopeState<K, V>
    decreases ops.len(),
{
    if ops.len() == 0 {
        s
    } else {
        match ops.last() {
            ScopeOp::Push => st_push(st_apply_ops(s, ops.drop_last())),
            ScopeOp::Pop => st_pop(st_apply_ops(s, ops.drop_last())),
        }
    }
}

/// The number of `push`es in a sequence of operations.
pub open spec fn count_pushes(ops: Seq<ScopeOp>) -> nat
    decreases ops.len(),
{
    if ops.len() == 0 {
        0
    } else {
        count_pushes(ops.drop_last()) + (if ops.last() is Push {
            1nat
        } else {
            0nat
        })
    }
}

/// The number of `pop`s in a sequence of operations that were not no-ops,
/// that is, that found an open scope to close when their turn came.
pub open spec fn count_effective_pops<K, V>(s: ScopeState<K, V>, ops: Seq<ScopeOp>) -> nat
    decreases ops.len(),
{
    if ops.len() == 0 {
        0
    } else {
        count_effective_pops(s, ops.drop_last()) + (if ops.last() is Pop && st_depth(
            st_apply_ops(s, ops.drop_last()),
        ) > 0 {
            1nat
        } else {
            0nat
        })
    }
}

/// Law: for every sequence of `push`/`pop` operations, the depth equals the
/// starting depth plus the `push`es executed minus the `pop`s that were not
/// no-ops; stated as a sum so that no quantity can go negative.
pub proof fn lemma_depth_counts_pushes_and_pops<K, V>(s: ScopeState<K, V>, ops: Seq<ScopeOp>)
    ensures
        st_depth(st_apply_ops(s, ops)) + count_effective_pops(s, ops) == st_depth(s)
            + count_pushes(ops),
        count_effective_pops(s, ops) <= st_depth(s) + count_pushes(ops),
    decreases ops.len(),
{
    if ops.len() > 0 {
        lemma_depth_counts_pushes_and_pops(s, ops.drop_last());
    }
}

/// Law: inserting `v2` over an outer binding `v1` of the same key shadows it
/// for the lifetime of the scope, and `pop` brings `v1` back.
pub proof fn lemma_shadowing<K, V>(s: ScopeState<K, V>, k: K, v1: V, v2: V)
    ensures
        st_get(st_insert(st_push(st_insert(s, k, v1)), k, v2), k) == Some(v2),
        st_get(st_pop(st_insert(st_push(st_insert(s, k, v1)), k, v2)), k) == Some(v1),
{
}

/// Law: whatever is inserted between a `push` and the matching `pop`, the
/// `pop` restores the whole table state from before the `push`: every key's
/// lookup result is identical to what it was before the `push`.
pub proof fn lemma_full_restore<K, V>(s: ScopeState<K, V>, kvs: Seq<(K, V)>)
    ensures
        st_pop(st_inserts(st_push(s), kvs)) == s,
        forall|k: K| st_get(st_pop(st_inserts(st_push(s), kvs)), k) == st_get(s, k),
    decreases kvs.len(),
{
    lemma_inserts_keep_saved(st_push(s), kvs);
    let t = st_inserts(st_push(s), kvs);
    assert(t.saved == s.saved.push(s.cur));
    assert(st_pop(t) =~= s);
}

/// Inserting never touches the saved states.
pub proof fn lemma_inserts_keep_saved<K, V>(s: ScopeState<K, V>, kvs: Seq<(K, V)>)
    ensures
        st_inserts(s, kvs).saved == s.saved,
    decreases kvs.len(),
{
    if kvs.len() > 0 {
        lemma_inserts_keep_saved(s, kvs.drop_last());
    }
}

/// Law: binding a key at N nested depths and then popping N times restores
/// the whole table state from before the nest; in particular the key's outer
/// binding, or its absence, is restored.
pub proof fn lemma_nested_shadow_unwind<K, V>(s: ScopeState<K, V>, k: K, vs: Seq<V>)
    ensures
        st_pops(st_bind_nested(s, k, vs), vs.len()) == s,
        st_get(st_pops(st_bind_nested(s, k, vs), vs.len()), k) == st_get(s, k),
    decreases vs.len(),
{
    if vs.len() > 0 {
        let inner = st_bind_nested(s, k, vs.drop_last());
        let bound = st_insert(st_push(inner), k, vs.last());
        assert(st_pop(bound) =~= inner);
        lemma_pops_commute_with_pop(bound, (vs.len() - 1) as nat);
        lemma_nested_shadow_unwind(s, k, vs.drop_last());
    }
}

/// Performing the first of `n + 1` pops first is the same as performing it
/// last: pops compose either way around.
pub proof fn lemma_pops_commute_with_pop<K, V>(s: ScopeState<K, V>, n: nat)
    ensures
        st_pops(s, n + 1) == st_pops(st_pop(s), n),
    decreases n,
{
    if n > 0 {
        lemma_pops_commute_with_pop(st_pop(s), (n - 1) as nat);
    }
}

/// The keys bound by a sequence of inserts.
pub open spec fn inserted_keys<K, V>(kvs: Seq<(K, V)>) -> Set<K> {
    Set::new(|k: K| exists|i: int| 0 <= i < kvs.len() && kvs[i].0 == k)
}

/// Law: inserting touches no other key, so after two handles part ways -- the
/// states being separate values, as after a clone -- mutations under one
/// handle's keys are never observed at the other handle's keys.
pub proof fn lemma_inserts_preserve_other_keys<K, V>(
    s: ScopeState<K, V>,
    kvs: Seq<(K, V)>,
    k: K,
)
    requires
        !inserted_keys(kvs).contains(k),
    ensures
        st_get(st_inserts(s, kvs), k) == st_get(s, k),
    decreases kvs.len(),
{
    if kvs.len() > 0 {
        assert(!inserted_keys(kvs.drop_last()).contains(k));
        assert(kvs[kvs.len() - 1].0 != k);
        lemma_inserts_preserve_other_keys(s, kvs.drop_last(), k);
    }
}

} // verus!
