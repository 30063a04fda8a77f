use smodel::arena::Arena;
use smodel::shared_array::SharedArray;
use smodel::shared_map::SharedMap;
use smodel::symbol::Symbol;

#[test]
fn shared_array_push_get_and_search() {
    let mut a: SharedArray<Symbol> = SharedArray::new();
    assert_eq!(a._length(), 0);
    assert_eq!(a.get(0), None);
    a.push(Symbol(4));
    a.push(Symbol(7));
    a.push(Symbol(4));
    assert_eq!(a._length(), 3);
    assert_eq!(a.get(1), Some(Symbol(7)));
    assert_eq!(a.get(3), None);
    assert!(a._includes(&Symbol(7)));
    assert!(!a._includes(&Symbol(9)));
    assert_eq!(a._index_of(&Symbol(4)), Some(0));
    assert_eq!(a._index_of(&Symbol(9)), None);
    assert_eq!(a.iter(), vec![Symbol(4), Symbol(7), Symbol(4)]);
}

#[test]
fn shared_array_set_remove_and_copy() {
    let mut a: SharedArray<Symbol> = SharedArray::new();
    a.push(Symbol(1));
    a.push(Symbol(2));
    a.push(Symbol(3));
    a._set(1, Symbol(20));
    assert_eq!(a.get(1), Some(Symbol(20)));
    a._remove(0);
    assert_eq!(a.iter(), vec![Symbol(20), Symbol(3)]);
    let b = a._clone_content();
    assert_eq!(b.iter(), vec![Symbol(20), Symbol(3)]);
}

#[test]
fn shared_map_keeps_insertion_order_and_replaces() {
    let mut m: SharedMap<String, Symbol> = SharedMap::new();
    m.set("b".to_string(), Symbol(2));
    m.set("a".to_string(), Symbol(1));
    m.set("c".to_string(), Symbol(3));
    assert_eq!(m._length(), 3);
    assert!(m.has(&"a".to_string()));
    assert!(!m.has(&"z".to_string()));
    assert_eq!(m.get(&"c".to_string()), Some(Symbol(3)));
    assert_eq!(m.get(&"z".to_string()), None);
    // Setting a present key replaces its value and keeps its place.
    m.set("b".to_string(), Symbol(20));
    let keys: Vec<String> = m.borrow().iter().map(|e| e.0.clone()).collect();
    assert_eq!(keys, vec!["b".to_string(), "a".to_string(), "c".to_string()]);
    assert_eq!(m.get(&"b".to_string()), Some(Symbol(20)));
    assert_eq!(m._length(), 3);
}

#[test]
fn shared_map_remove_and_copy() {
    let mut m: SharedMap<Symbol, usize> = SharedMap::new();
    m.set(Symbol(1), 10);
    m.set(Symbol(2), 20);
    assert_eq!(m._remove(&Symbol(1)), Some(10));
    assert_eq!(m._remove(&Symbol(1)), None);
    assert_eq!(m._length(), 1);
    let c = m._clone_content();
    assert_eq!(c.get(&Symbol(2)), Some(20));
    assert_eq!(c._length(), 1);
}

#[test]
fn arena_allocates_and_cleans_unreferenced_values() {
    let mut arena: Arena<String> = Arena::new();
    let kept = arena.allocate("kept".to_string());
    {
        let dropped = arena.allocate("dropped".to_string());
        assert_eq!(*dropped, "dropped");
    }
    assert_eq!(*kept, "kept");
    assert_eq!(arena.len(), 2);
    arena.clean();
    // The value no handle refers to is freed; the other survives.
    assert_eq!(arena.len(), 1);
    assert_eq!(*kept, "kept");
    let again = arena.allocate("again".to_string());
    assert_eq!(*again, "again");
}

#[test]
fn arena_retain_live_keeps_unflagged_in_order() {
    let mut arena: Arena<u32> = Arena::new();
    let a = arena.allocate(1);
    let b = arena.allocate(2);
    let c = arena.allocate(3);
    arena.retain_live(&vec![false, true, false]);
    assert_eq!(arena.len(), 2);
    assert_eq!((*a, *b, *c), (1, 2, 3));
    arena.retain_live(&vec![true, false]);
    assert_eq!(arena.len(), 1);
}
