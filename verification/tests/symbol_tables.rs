use hayami::fast;
use hayami::local;
use hayami::snap;
use hayami::testing;
use hayami::{MutSymbolMap, SymbolMap, SymbolStack};

fn basic_scenario<S: SymbolMap<String, Value = usize>>(symbols: &mut S) {
    assert!(symbols.is_empty());
    assert!(!symbols.contains_key(&"x".to_string()));
    assert!(!symbols.contains_key(&"y".to_string()));
    symbols.insert("x".to_string(), 4);
    assert!(symbols.contains_key(&"x".to_string()));
    assert!(!symbols.contains_key(&"y".to_string()));
    assert_eq!(symbols.get(&"x".to_string()), Some(&4));
    symbols.insert("x".to_string(), 3);
    assert_eq!(symbols.get(&"x".to_string()), Some(&3));
    assert!(symbols.contains_key(&"x".to_string()));
    assert!(!symbols.contains_key(&"y".to_string()));
    symbols.insert("y".to_string(), 7);
    assert!(symbols.contains_key(&"x".to_string()));
    assert!(symbols.contains_key(&"y".to_string()));
    assert_eq!(symbols.get(&"y".to_string()), Some(&7));
    symbols.push();
    symbols.insert("x".to_string(), 9);
    symbols.insert("z".to_string(), 1);
    assert_eq!(symbols.get(&"x".to_string()), Some(&9));
    assert_eq!(symbols.get(&"y".to_string()), Some(&7));
    assert_eq!(symbols.get(&"z".to_string()), Some(&1));
    assert!(symbols.contains_key(&"z".to_string()));
    assert!(symbols.contains_key(&"x".to_string()));
    symbols.insert("z".to_string(), 33);
    assert_eq!(symbols.get(&"x".to_string()), Some(&9));
    assert_eq!(symbols.get(&"y".to_string()), Some(&7));
    assert_eq!(symbols.get(&"z".to_string()), Some(&33));
    assert!(symbols.contains_key(&"z".to_string()));
    assert!(symbols.contains_key(&"x".to_string()));
    symbols.pop();
    assert!(!symbols.contains_key(&"z".to_string()));
}

#[test]
fn lib_basic_symbol_table_test() {
    basic_scenario(&mut fast::SymbolTable::new());
}

#[test]
fn fast_basic_symbol_table_test() {
    testing::basic_symbol_table_test(&mut fast::SymbolTable::new());
    basic_scenario(&mut fast::SymbolTable::new());
}

#[test]
fn snap_basic_symbol_table_test() {
    testing::basic_symbol_table_test(&mut snap::SymbolTable::new());
    basic_scenario(&mut snap::SymbolTable::new());
}

#[test]
fn local_basic_symbol_table_test() {
    testing::basic_symbol_table_test(&mut local::SymbolTable::new());
    basic_scenario(&mut local::SymbolTable::new());
}

#[test]
fn inserting_back_twice_works() {
    let mut table = fast::SymbolTable::new();
    table.insert("5".to_string(), 3);
    table.push();
    table.insert("5".to_string(), 4);
    table.push();
    table.insert("5".to_string(), 5);
    assert_eq!(table.get(&"5".to_string()), Some(&5));
    table.pop();
    assert_eq!(table.get(&"5".to_string()), Some(&4));
    table.pop();
    assert_eq!(table.get(&"5".to_string()), Some(&3));
    table.pop();
}

#[test]
fn depth_counts_pushes_and_effective_pops() {
    let mut table = fast::SymbolTable::new();
    assert_eq!(table.depth(), 0);
    table.pop();
    assert_eq!(table.depth(), 0);
    table.push();
    table.push();
    assert_eq!(table.depth(), 2);
    table.pop();
    assert_eq!(table.depth(), 1);
    table.pop();
    assert_eq!(table.depth(), 0);
    table.pop();
    assert_eq!(table.depth(), 0);
}

#[test]
fn snap_depth_counts_pushes_and_effective_pops() {
    let mut table = snap::SymbolTable::new();
    table.pop();
    assert_eq!(table.depth(), 0);
    table.push();
    table.push();
    table.push();
    assert_eq!(table.depth(), 3);
    table.pop();
    table.pop();
    table.pop();
    table.pop();
    assert_eq!(table.depth(), 0);
}

#[test]
fn nested_shadow_unwind_restores_outer_binding() {
    let mut table = fast::SymbolTable::new();
    table.insert("k".to_string(), 100);
    for v in 0..3usize {
        table.push();
        table.insert("k".to_string(), v);
        assert_eq!(table.get(&"k".to_string()), Some(&v));
    }
    for _ in 0..3usize {
        table.pop();
    }
    assert_eq!(table.get(&"k".to_string()), Some(&100));
    assert_eq!(table.depth(), 0);
}

#[test]
fn nested_shadow_unwind_without_outer_binding() {
    let mut table = local::SymbolTable::new();
    for v in 0..4usize {
        table.push();
        table.insert("k".to_string(), v);
    }
    for _ in 0..4usize {
        table.pop();
    }
    assert_eq!(table.get(&"k".to_string()), None);
    assert!(!table.contains_key(&"k".to_string()));
    assert!(table.is_empty());
}

#[test]
fn pop_fully_restores_prior_state() {
    let mut table = fast::SymbolTable::new();
    table.insert("a".to_string(), 1);
    table.insert("b".to_string(), 2);
    table.push();
    table.insert("a".to_string(), 10);
    table.insert("c".to_string(), 30);
    table.insert("c".to_string(), 31);
    table.insert("d".to_string(), 40);
    table.pop();
    assert_eq!(table.get(&"a".to_string()), Some(&1));
    assert_eq!(table.get(&"b".to_string()), Some(&2));
    assert_eq!(table.get(&"c".to_string()), None);
    assert_eq!(table.get(&"d".to_string()), None);
    assert!(!table.is_empty());
}

#[test]
fn clone_independence_snap() {
    let mut original = snap::SymbolTable::new();
    original.insert("shared".to_string(), 1);
    original.push();
    let mut copy = original.clone();
    original.insert("mine".to_string(), 2);
    copy.insert("yours".to_string(), 3);
    assert_eq!(original.get(&"mine".to_string()), Some(&2));
    assert_eq!(original.get(&"yours".to_string()), None);
    assert_eq!(copy.get(&"yours".to_string()), Some(&3));
    assert_eq!(copy.get(&"mine".to_string()), None);
    assert_eq!(original.get(&"shared".to_string()), Some(&1));
    assert_eq!(copy.get(&"shared".to_string()), Some(&1));
    original.pop();
    assert_eq!(original.get(&"mine".to_string()), None);
    assert_eq!(copy.get(&"yours".to_string()), Some(&3));
}

#[test]
fn clone_independence_local() {
    let mut original = local::SymbolTable::new();
    original.insert("shared".to_string(), 1);
    let mut copy = original.clone();
    original.insert("mine".to_string(), 2);
    copy.insert("yours".to_string(), 3);
    assert_eq!(original.get(&"yours".to_string()), None);
    assert_eq!(copy.get(&"mine".to_string()), None);
    assert_eq!(original.get(&"shared".to_string()), Some(&1));
    assert_eq!(copy.get(&"shared".to_string()), Some(&1));
}

#[test]
fn fast_try_get_mut_always_declines() {
    let mut table = fast::SymbolTable::new();
    table.insert("x".to_string(), 4);
    assert!(table.try_get_mut(&"x".to_string()).is_none());
    assert!(table.try_get_mut(&"missing".to_string()).is_none());
    assert_eq!(table.get(&"x".to_string()), Some(&4));
}

#[test]
fn snap_get_mut_updates_visible_binding() {
    let mut table = snap::SymbolTable::new();
    table.insert("x".to_string(), 4);
    table.push();
    if let Some(v) = table.get_mut(&"x".to_string()) {
        *v = 9;
    } else {
        panic!("bound key must be mutable");
    }
    assert_eq!(table.get(&"x".to_string()), Some(&9));
    assert!(table.try_get_mut(&"missing".to_string()).is_none());
    table.pop();
    assert_eq!(table.get(&"x".to_string()), Some(&4));
}

#[test]
fn local_get_mut_updates_visible_binding() {
    let mut table = local::SymbolTable::new();
    table.insert("x".to_string(), 4);
    if let Some(v) = table.try_get_mut(&"x".to_string()) {
        *v = 5;
    } else {
        panic!("bound key must be mutable");
    }
    assert_eq!(table.get(&"x".to_string()), Some(&5));
}

#[test]
fn snap_prev_exposes_enclosing_scope() {
    let mut table = snap::SymbolTable::new();
    assert!(table.prev().is_none());
    assert!(table.get_prev().is_none());
    table.insert("x".to_string(), 1);
    table.push();
    table.insert("x".to_string(), 2);
    let parent = table.prev().expect("one scope is open");
    assert_eq!(parent.get(&"x".to_string()), Some(&1));
    assert_eq!(parent.depth(), 0);
    let shared = table.get_prev().expect("one scope is open");
    assert_eq!(shared.get(&"x".to_string()), Some(&1));
}

#[test]
fn local_extend_freezes_receiver() {
    let mut table = local::SymbolTable::new();
    table.insert("x".to_string(), 1);
    let mut extended = table.extend();
    assert_eq!(extended.depth(), 1);
    extended.insert("x".to_string(), 2);
    assert_eq!(extended.get(&"x".to_string()), Some(&2));
    extended.pop();
    assert_eq!(extended.get(&"x".to_string()), Some(&1));
    assert_eq!(extended.depth(), 0);
}

#[test]
fn try_insert_rejects_same_depth_redefinition() {
    let mut table = fast::SymbolTable::new();
    assert!(table.try_insert("x".to_string(), 4).is_ok());
    match table.try_insert("x".to_string(), 5) {
        Ok(()) => panic!("root redefinition must be rejected"),
        Err(e) => assert_eq!(e.value, 5),
    }
    assert_eq!(table.get(&"x".to_string()), Some(&4));
}

#[test]
fn try_insert_allows_shadowing_in_new_scope() {
    let mut table = fast::SymbolTable::new();
    assert!(table.try_insert("x".to_string(), 4).is_ok());
    table.push();
    assert!(table.try_insert("x".to_string(), 9).is_ok());
    assert_eq!(table.get(&"x".to_string()), Some(&9));
    match table.try_insert("x".to_string(), 10) {
        Ok(()) => panic!("same-scope redefinition must be rejected"),
        Err(e) => assert_eq!(e.value, 10),
    }
    assert!(table.try_insert("fresh".to_string(), 1).is_ok());
    match table.try_insert("fresh".to_string(), 2) {
        Ok(()) => panic!("a key created in this scope must be rejected"),
        Err(e) => assert_eq!(e.value, 2),
    }
    table.pop();
    assert_eq!(table.get(&"x".to_string()), Some(&4));
    assert!(table.try_insert("x".to_string(), 6).is_err());
}

#[test]
fn fast_with_capacity_starts_empty() {
    let mut table = fast::SymbolTable::with_capacity(16);
    assert!(table.is_empty());
    assert_eq!(table.depth(), 0);
    table.insert("x".to_string(), 1);
    assert!(!table.is_empty());
}

#[test]
fn default_tables_start_empty() {
    let fast_table = fast::SymbolTable::default();
    assert!(fast_table.is_empty());
    let snap_table = snap::SymbolTable::default();
    assert!(snap_table.is_empty());
    let local_table = local::SymbolTable::default();
    assert!(local_table.is_empty());
}

#[test]
fn repeated_root_inserts_are_permanent() {
    let mut table = snap::SymbolTable::new();
    table.insert("x".to_string(), 1);
    table.insert("x".to_string(), 2);
    table.pop();
    assert_eq!(table.get(&"x".to_string()), Some(&2));
    assert_eq!(table.depth(), 0);
}
