use arena_lib::arena::Arena;

#[test]
fn insert_and_get() {
    let mut a = Arena::new();
    let i = a.insert(42);
    assert_eq!(a.get(i), Some(&42));
    assert_eq!(a.len(), 1);
    assert!(!a.is_empty());
}

#[test]
fn remove_invalidates_handle() {
    let mut a = Arena::new();
    let i = a.insert("hello");
    assert_eq!(a.remove(i), Some("hello"));
    assert!(a.get(i).is_none());
    assert!(a.remove(i).is_none());
}

#[test]
fn slot_reuse_bumps_generation() {
    let mut a = Arena::new();
    let i1 = a.insert(1);
    let _ = a.remove(i1);
    let i2 = a.insert(2);
    assert_eq!(i1.slot(), i2.slot());
    assert_ne!(i1.generation(), i2.generation());
    assert!(a.get(i1).is_none());
    assert_eq!(a.get(i2), Some(&2));
}

#[test]
fn iter_yields_only_live() {
    let mut a = Arena::new();
    let i1 = a.insert("a");
    let i2 = a.insert("b");
    let i3 = a.insert("c");
    let _ = a.remove(i2);
    let mut values = Vec::new();
    let mut it = a.iter();
    while let Some((_, v)) = it.next() {
        values.push(*v);
    }
    assert_eq!(values, vec!["a", "c"]);
    let _ = (i1, i3);
}

#[test]
fn clear_resets_len_and_invalidates_handles() {
    let mut a = Arena::new();
    let i = a.insert(7);
    a.clear();
    assert_eq!(a.len(), 0);
    assert!(a.get(i).is_none());
}

#[test]
fn get_mut_mutates() {
    let mut a = Arena::new();
    let i = a.insert(10);
    if let Some(v) = a.get_mut(i) {
        *v = 99;
    }
    assert_eq!(a.get(i), Some(&99));
}

#[test]
fn contains_reflects_liveness() {
    let mut a = Arena::new();
    let i = a.insert(0_u8);
    assert!(a.contains(i));
    let _ = a.remove(i);
    assert!(!a.contains(i));
}

#[test]
fn insert_after_remove_reuses_most_recently_freed_slot() {
    let mut a = Arena::with_capacity(4);
    let h0 = a.insert(10_u32);
    let h1 = a.insert(11);
    let h2 = a.insert(12);
    assert_eq!((h0.slot(), h1.slot(), h2.slot()), (0, 1, 2));
    assert_eq!(h0.generation(), 1);
    assert_eq!(a.remove(h0), Some(10));
    assert_eq!(a.remove(h2), Some(12));
    let n1 = a.insert(20);
    let n2 = a.insert(21);
    let n3 = a.insert(22);
    assert_eq!((n1.slot(), n1.generation()), (2, 2));
    assert_eq!((n2.slot(), n2.generation()), (0, 2));
    assert_eq!((n3.slot(), n3.generation()), (3, 1));
    assert_eq!(a.get(h1), Some(&11));
    assert_eq!(a.len(), 4);
}

#[test]
fn removed_handle_stays_stale_across_many_reuses() {
    let mut a = Arena::new();
    let first = a.insert(0_u32);
    let _ = a.remove(first);
    for round in 1..50_u32 {
        let h = a.insert(round);
        assert_eq!(h.slot(), first.slot());
        assert!(a.get(first).is_none());
        assert_eq!(a.remove(h), Some(round));
        assert!(a.get(h).is_none());
    }
    assert!(a.is_empty());
}

#[test]
fn clear_puts_every_slot_back_in_order() {
    let mut a = Arena::new();
    let x = a.insert('x');
    let _y = a.insert('y');
    let _z = a.insert('z');
    let _ = a.remove(x);
    a.clear();
    assert!(a.is_empty());
    let n0 = a.insert('p');
    let n1 = a.insert('q');
    assert_eq!((n0.slot(), n0.generation()), (0, 2));
    assert_eq!((n1.slot(), n1.generation()), (1, 2));
    assert!(a.capacity() >= 3);
}

#[test]
fn len_counts_live_elements() {
    let mut a = Arena::new();
    let handles: Vec<_> = (0..10_u8).map(|v| a.insert(v)).collect();
    let mut removed = 0;
    for (i, h) in handles.iter().enumerate() {
        if i % 3 == 0 && a.remove(*h).is_some() {
            removed += 1;
        }
    }
    assert_eq!(a.len(), 10 - removed);
    let mut counted = 0;
    let mut it = a.iter();
    while it.next().is_some() {
        counted += 1;
    }
    assert_eq!(counted, a.len());
}

#[test]
fn iter_mut_visits_live_elements_in_slot_order() {
    let mut a = Arena::new();
    let h0 = a.insert(1_i32);
    let h1 = a.insert(2);
    let h2 = a.insert(3);
    let _ = a.remove(h1);
    let mut seen = Vec::new();
    {
        let mut it = a.iter_mut();
        while let Some((idx, v)) = it.next() {
            seen.push(idx);
            *v *= 10;
        }
    }
    assert_eq!(seen, vec![h0, h2]);
    assert_eq!(a.get(h0), Some(&10));
    assert_eq!(a.get(h2), Some(&30));
}

#[test]
fn try_insert_succeeds_below_the_slot_limit() {
    let mut a = Arena::default();
    let h = a.try_insert("v").unwrap();
    assert_eq!((h.slot(), h.generation()), (0, 1));
    a.reserve(16);
    assert!(a.capacity() >= 17);
    assert_eq!(a.get(h), Some(&"v"));
}

#[test]
fn handle_from_another_arena_is_rejected() {
    let mut a = Arena::new();
    let mut b = Arena::new();
    let ia = a.insert(1_u32);
    let ib = b.insert(2_u32);
    assert_eq!(ia.slot(), ib.slot());
    assert_eq!(ia.generation(), ib.generation());
    assert!(b.get(ia).is_none());
    assert!(!b.contains(ia));
    assert!(b.get_mut(ia).is_none());
    assert_eq!(b.remove(ia), None);
    assert_eq!(b.get(ib), Some(&2));
    assert_eq!(a.get(ia), Some(&1));
}

#[test]
fn iter_mut_writes_land_in_reused_slots() {
    let mut a = Arena::new();
    let i1 = a.insert(1_u64);
    let _ = a.remove(i1);
    let i2 = a.insert(2);
    let i3 = a.insert(3);
    {
        let mut it = a.iter_mut();
        let (idx, v) = it.next().unwrap();
        assert_eq!(idx, i2);
        assert_eq!(*v, 2);
        *v = 7;
        let (idx, v) = it.next().unwrap();
        assert_eq!(idx, i3);
        assert_eq!(*v, 3);
        assert!(it.next().is_none());
    }
    assert_eq!(a.get(i2), Some(&7));
    assert_eq!(a.get(i3), Some(&3));
    assert!(a.get(i1).is_none());
    assert_eq!(a.len(), 2);
}

#[test]
fn len_is_inserts_minus_removes() {
    let mut a = Arena::new();
    let mut live = Vec::new();
    let mut inserted = 0_usize;
    let mut removed = 0_usize;
    for k in 0..50_u32 {
        if k % 3 == 2 && !live.is_empty() {
            let (h, v) = live.remove((k as usize * 7) % live.len());
            assert_eq!(a.remove(h), Some(v));
            removed += 1;
        } else {
            live.push((a.insert(k), k));
            inserted += 1;
        }
        assert_eq!(a.len(), inserted - removed);
        let mut walked = 0_usize;
        let mut it = a.iter();
        while let Some(_) = it.next() {
            walked += 1;
        }
        assert_eq!(walked, a.len());
    }
    assert_eq!(a.is_empty(), inserted == removed);
}

#[test]
fn handle_is_live_until_removed_or_cleared() {
    let mut a = Arena::new();
    let kept = a.insert(1);
    let dropped = a.insert(2);
    for k in 10..20 {
        let h = a.insert(k);
        let _ = a.remove(h);
    }
    if let Some(v) = a.get_mut(kept) {
        *v = 5;
    }
    assert!(a.contains(kept));
    assert_eq!(a.remove(dropped), Some(2));
    assert!(!a.contains(dropped));
    let again = a.insert(3);
    assert!(a.contains(again));
    assert!(!a.contains(dropped));
    assert_eq!(a.get(kept), Some(&5));
    a.clear();
    assert!(!a.contains(kept));
    assert!(!a.contains(again));
}

#[test]
fn iter_yields_every_live_handle_in_increasing_slot_order() {
    let mut a = Arena::new();
    let hs: Vec<_> = (0..10).map(|k| a.insert(k)).collect();
    for k in [1_usize, 4, 5, 8] {
        let _ = a.remove(hs[k]);
    }
    let _ = a.insert(40);
    let mut seen = Vec::new();
    let mut it = a.iter();
    while let Some((h, v)) = it.next() {
        assert_eq!(a.get(h), Some(v));
        seen.push(h);
    }
    assert_eq!(seen.len(), a.len());
    for w in seen.windows(2) {
        assert!(w[0].slot() < w[1].slot());
    }
    for k in [0_usize, 2, 3, 6, 7, 9] {
        assert!(seen.contains(&hs[k]));
    }
}
