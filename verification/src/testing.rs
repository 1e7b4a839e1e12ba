//! Utility functions for exercising `SymbolMap` implementations.
use vstd::prelude::*;

use crate::model::st_empty;
use crate::SymbolMap;

verus! {

/// A basic scenario of symbol table functionality, starting from an empty
/// symbol table: root bindings, shadowing in a pushed scope, and the full
/// restore on pop.  Every step is checked against the table's contract, so
/// this function verifies once for every engine that implements it.
pub fn basic_symbol_table_test<S: SymbolMap<String, Value = usize>>(symbols: &mut S)
    requires
        old(symbols).inv(),
        old(symbols).st() == st_empty::<Seq<char>, usize>(),
{
    proof {
        reveal_strlit("x");
        reveal_strlit("y");
        reveal_strlit("z");
        assert("x"@[0] == 'x' && "y"@[0] == 'y' && "z"@[0] == 'z');
        assert("x"@ != "y"@) by {
            assert("x"@[0] != "y"@[0]);
        }
        assert("x"@ != "z"@) by {
            assert("x"@[0] != "z"@[0]);
        }
        assert("y"@ != "z"@) by {
            assert("y"@[0] != "z"@[0]);
        }
    }
    let kx: String = "x".to_owned();
    let ky: String = "y".to_owned();
    let kz: String = "z".to_owned();
    let empty0 = symbols.is_empty();
    assert(empty0);
    let cx0 = symbols.contains_key(&kx);
    assert(!cx0);
    let cy0 = symbols.contains_key(&ky);
    assert(!cy0);
    symbols.insert("x".to_owned(), 4);
    let cx1 = symbols.contains_key(&kx);
    assert(cx1);
    let cy1 = symbols.contains_key(&ky);
    assert(!cy1);
    let gx1 = symbols.get(&kx);
    assert(gx1 is Some && *gx1->Some_0 == 4);
    symbols.insert("x".to_owned(), 3);
    let gx2 = symbols.get(&kx);
    assert(gx2 is Some && *gx2->Some_0 == 3);
    let cx2 = symbols.contains_key(&kx);
    assert(cx2);
    let cy2 = symbols.contains_key(&ky);
    assert(!cy2);
    symbols.insert("y".to_owned(), 7);
    let cx3 = symbols.contains_key(&kx);
    assert(cx3);
    let cy3 = symbols.contains_key(&ky);
    assert(cy3);
    let gy1 = symbols.get(&ky);
    assert(gy1 is Some && *gy1->Some_0 == 7);
    symbols.push();
    symbols.insert("x".to_owned(), 9);
    symbols.insert("z".to_owned(), 1);
    let gx3 = symbols.get(&kx);
    assert(gx3 is Some && *gx3->Some_0 == 9);
    let gy2 = symbols.get(&ky);
    assert(gy2 is Some && *gy2->Some_0 == 7);
    let gz1 = symbols.get(&kz);
    assert(gz1 is Some && *gz1->Some_0 == 1);
    let cz1 = symbols.contains_key(&kz);
    assert(cz1);
    let cx4 = symbols.contains_key(&kx);
    assert(cx4);
    symbols.insert("z".to_owned(), 33);
    let gx4 = symbols.get(&kx);
    assert(gx4 is Some && *gx4->Some_0 == 9);
    let gy3 = symbols.get(&ky);
    assert(gy3 is Some && *gy3->Some_0 == 7);
    let gz2 = symbols.get(&kz);
    assert(gz2 is Some && *gz2->Some_0 == 33);
    let cz2 = symbols.contains_key(&kz);
    assert(cz2);
    let cx5 = symbols.contains_key(&kx);
    assert(cx5);
    symbols.pop();
    let cz3 = symbols.contains_key(&kz);
    assert(!cz3);
}

} // verus!
