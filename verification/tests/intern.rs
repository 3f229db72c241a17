use arena_lib::intern::Interner;

#[test]
fn same_string_returns_same_symbol() {
    let mut i = Interner::new();
    let a = i.intern("hello");
    let b = i.intern("hello");
    assert_eq!(a, b);
    assert_eq!(i.len(), 1);
}

#[test]
fn distinct_strings_return_distinct_symbols() {
    let mut i = Interner::new();
    let a = i.intern("alpha");
    let b = i.intern("bravo");
    assert_ne!(a, b);
}

#[test]
fn resolve_round_trips() {
    let mut i = Interner::new();
    let s = i.intern("round-trip");
    assert_eq!(i.resolve(s), Some("round-trip"));
}

#[test]
fn lookup_does_not_insert() {
    let mut i = Interner::new();
    let _ = i.intern("first");
    assert!(i.lookup("second").is_none());
    assert_eq!(i.len(), 1);
}

#[test]
fn contains_reflects_state() {
    let mut i = Interner::new();
    assert!(!i.contains("x"));
    let _ = i.intern("x");
    assert!(i.contains("x"));
}

#[test]
fn iter_yields_insertion_order() {
    let mut i = Interner::new();
    let _ = i.intern("a");
    let _ = i.intern("b");
    let _ = i.intern("c");
    let mut collected: Vec<&str> = Vec::new();
    let mut it = i.iter();
    while let Some((_, s)) = it.next() {
        collected.push(s);
    }
    assert_eq!(collected, vec!["a", "b", "c"]);
}

#[test]
fn symbols_are_positions_in_first_seen_order() {
    let mut i = Interner::with_capacity(8);
    let a = i.intern("user:42");
    let b = i.intern("user:7");
    let c = i.intern("user:42");
    assert_eq!((a.id(), b.id(), c.id()), (0, 1, 0));
    assert_eq!(i.lookup("user:7").map(|s| s.id()), Some(1));
    assert_eq!(i.try_intern("user:9").map(|s| s.id()), Ok(2));
    assert_eq!(i.len(), 3);
}

#[test]
fn interning_many_inputs_counts_distinct_ones() {
    let inputs = ["x", "y", "x", "z", "y", "x", ""];
    let mut i = Interner::default();
    let mut symbols = Vec::new();
    for s in inputs {
        symbols.push((i.intern(s), s));
    }
    for (sym, s) in &symbols {
        assert_eq!(i.intern(s), *sym);
        assert_eq!(i.resolve(*sym), Some(*s));
    }
    assert_eq!(i.len(), 4);
    assert!(!i.is_empty());
}

#[test]
fn resolve_rejects_symbol_past_the_end() {
    let mut a = Interner::new();
    let mut b = Interner::new();
    let _ = a.intern("only");
    let _ = b.intern("one");
    let foreign = b.intern("two");
    assert_eq!(a.resolve(foreign), None);
}

#[test]
fn symbol_resolves_after_later_interning() {
    let mut i = Interner::new();
    let first = i.intern("first");
    for k in 0..100 {
        let _ = i.intern(&format!("word{}", k % 37));
        assert_eq!(i.resolve(first), Some("first"));
    }
    let _ = i.intern("first");
    assert_eq!(i.resolve(first), Some("first"));
    assert_eq!(i.len(), 38);
}

#[test]
fn contains_exactly_what_was_interned() {
    let mut i = Interner::new();
    let inputs = ["a", "b", "a", "c", "b", "d"];
    for s in inputs {
        let _ = i.intern(s);
    }
    for s in ["a", "b", "c", "d"] {
        assert!(i.contains(s));
        assert!(i.lookup(s).is_some());
    }
    for s in ["e", "", "ab"] {
        assert!(!i.contains(s));
        assert!(i.lookup(s).is_none());
    }
    assert_eq!(i.len(), 4);
}
