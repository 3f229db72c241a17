use arena_lib::{Arena, Error};

#[test]
fn every_variant_has_non_empty_display() {
    for variant in [
        Error::StaleIndex,
        Error::CapacityExceeded,
        Error::CounterOverflow,
    ] {
        let rendered = variant.message().to_string();
        assert!(!rendered.is_empty(), "{variant:?} has empty Display");
        assert!(
            rendered.chars().all(|c| !c.is_control() || c == ' '),
            "{variant:?} Display contains control chars: {rendered:?}"
        );
    }
}

/// The library's error carried through `std::error::Error` by a thin
/// wrapper that renders it with `message`.
#[derive(Debug)]
struct Carried(Error);

impl std::fmt::Display for Carried {
    fn fmt(&self, f: &mut std::fmt::Formatter<'_>) -> std::fmt::Result {
        f.write_str(self.0.message())
    }
}

impl std::error::Error for Carried {}

#[test]
fn error_is_std_error() {
    let e: Box<dyn std::error::Error> = Box::new(Carried(Error::StaleIndex));
    assert!(e.source().is_none(), "Error variants have no nested source");
}

#[test]
fn error_variants_are_equatable() {
    assert_eq!(Error::StaleIndex, Error::StaleIndex);
    assert_ne!(Error::StaleIndex, Error::CapacityExceeded);
    assert_ne!(Error::CapacityExceeded, Error::CounterOverflow);
}

#[test]
fn arena_remove_returns_none_for_unknown_handle() {
    let mut arena: Arena<u32> = Arena::new();
    let h = arena.insert(42);
    assert_eq!(arena.remove(h), Some(42));
    assert!(arena.get(h).is_none());
    assert_eq!(arena.remove(h), None);
}

#[test]
fn messages_match_each_variant() {
    assert_eq!(
        Error::StaleIndex.message(),
        "stale index: handle does not refer to a live element"
    );
    assert_eq!(
        Error::CapacityExceeded.message(),
        "capacity exceeded: allocator could not grow"
    );
    assert_eq!(
        Error::CounterOverflow.message(),
        "counter overflow: generation or symbol counter exhausted"
    );
}
