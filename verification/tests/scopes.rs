use hydration::draw::next_id;
use hydration::id::SerializedDataId;
use std::sync::atomic::{AtomicU64, Ordering};
use std::sync::Arc;
use hydration::scope::{
    enter_id_scope, enter_throwaway_id_scope, exit_id_scope, scoped_next_id, IdScopes,
};

/// Counters owned by the test, referred to by number from the frames.
struct Counters(Vec<u64>);

impl Counters {
    fn new_counter(&mut self) -> usize {
        self.0.push(0);
        self.0.len() - 1
    }
}

/// Allocates as a thread's scope stack does: draws the innermost anchored
/// frame's counter, then asks for the identifier.
fn next(scopes: &IdScopes<usize>, counters: &mut Counters) -> Option<String> {
    let drawn = match scopes.innermost_counter() {
        Some(&c) => {
            let v = counters.0[c];
            counters.0[c] = v.wrapping_add(1);
            v
        }
        None => 0,
    };
    scoped_next_id(scopes, drawn).map(|id| id.as_key().to_string())
}

#[test]
fn no_scope_allocates_nothing() {
    let scopes: IdScopes<usize> = IdScopes::new();
    assert!(scopes.innermost_counter().is_none());
    assert_eq!(scoped_next_id(&scopes, 7), None);
}

#[test]
fn anchored_scope_extends_its_anchor() {
    let mut counters = Counters(Vec::new());
    let mut scopes = IdScopes::new();
    let c = counters.new_counter();
    let g = enter_id_scope(&mut scopes, SerializedDataId::new(4), c);
    assert_eq!(scopes.innermost_counter(), Some(&c));
    assert_eq!(counters.0[c], 0); // entering allocates nothing
    assert_eq!(next(&scopes, &mut counters).as_deref(), Some("4.0"));
    assert_eq!(next(&scopes, &mut counters).as_deref(), Some("4.1"));
    assert_eq!(counters.0[c], 2);
    exit_id_scope(&mut scopes, g);
    assert_eq!(next(&scopes, &mut counters), None);
    assert_eq!(counters.0[c], 2);
}

#[test]
fn drawn_value_numbers_the_child() {
    let mut scopes = IdScopes::new();
    let g = enter_id_scope(&mut scopes, SerializedDataId::new(9), ());
    assert_eq!(scoped_next_id(&scopes, 41).unwrap().as_key(), "9.41");
    assert_eq!(scoped_next_id(&scopes, u64::MAX).unwrap().as_key(), format!("9.{}", u64::MAX));
    exit_id_scope(&mut scopes, g);
}

#[test]
fn root_anchored_scope_gives_top_level_ids() {
    let mut counters = Counters(Vec::new());
    let mut scopes = IdScopes::new();
    let c = counters.new_counter();
    let g = enter_id_scope(&mut scopes, SerializedDataId::root_anchor(), c);
    assert_eq!(next(&scopes, &mut counters).as_deref(), Some("0"));
    assert_eq!(next(&scopes, &mut counters).as_deref(), Some("1"));
    exit_id_scope(&mut scopes, g);
}

#[test]
fn throwaway_scope_discards_and_restores() {
    let mut counters = Counters(Vec::new());
    let mut scopes = IdScopes::new();
    let c = counters.new_counter();
    let outer = enter_id_scope(&mut scopes, SerializedDataId::new(2), c);
    assert_eq!(next(&scopes, &mut counters).as_deref(), Some("2.0"));
    let inner = enter_throwaway_id_scope(&mut scopes);
    assert!(scopes.innermost_counter().is_none());
    assert_eq!(next(&scopes, &mut counters).as_deref(), Some("discard"));
    assert_eq!(next(&scopes, &mut counters).as_deref(), Some("discard"));
    assert_eq!(counters.0[c], 1);
    exit_id_scope(&mut scopes, inner);
    assert_eq!(next(&scopes, &mut counters).as_deref(), Some("2.1"));
    exit_id_scope(&mut scopes, outer);
}

#[test]
fn shared_counter_continues_across_frames() {
    let mut counters = Counters(Vec::new());
    let mut scopes = IdScopes::new();
    let c = counters.new_counter();
    let a = SerializedDataId::new(5);
    let outer = enter_id_scope(&mut scopes, a.clone(), c);
    assert_eq!(next(&scopes, &mut counters).as_deref(), Some("5.0"));
    let inner = enter_id_scope(&mut scopes, a.clone(), c);
    assert_eq!(next(&scopes, &mut counters).as_deref(), Some("5.1"));
    exit_id_scope(&mut scopes, inner);
    assert_eq!(next(&scopes, &mut counters).as_deref(), Some("5.2"));
    exit_id_scope(&mut scopes, outer);
}

#[test]
fn nested_anchors_build_tree_paths() {
    let mut counters = Counters(Vec::new());
    let mut scopes = IdScopes::new();
    let c = counters.new_counter();
    let d = counters.new_counter();
    let outer = enter_id_scope(&mut scopes, SerializedDataId::new(4), c);
    let first = next(&scopes, &mut counters).unwrap();
    assert_eq!(first, "4.0");
    let inner = enter_id_scope(&mut scopes, SerializedDataId::from_key(first), d);
    assert_eq!(next(&scopes, &mut counters).as_deref(), Some("4.0.0"));
    assert_eq!(next(&scopes, &mut counters).as_deref(), Some("4.0.1"));
    exit_id_scope(&mut scopes, inner);
    assert_eq!(next(&scopes, &mut counters).as_deref(), Some("4.1"));
    exit_id_scope(&mut scopes, outer);
}

/// Allocates one identifier in a scope anchored at `anchor` with counter `c`.
fn alloc_in(
    scopes: &mut IdScopes<usize>,
    counters: &mut Counters,
    anchor: &SerializedDataId,
    c: usize,
) -> String {
    let g = enter_id_scope(scopes, anchor.clone(), c);
    let id = next(scopes, counters).unwrap();
    exit_id_scope(scopes, g);
    id
}

#[test]
fn allocation_order_does_not_matter() {
    let a = SerializedDataId::new(1);
    let b = SerializedDataId::new(2);

    let mut counters = Counters(Vec::new());
    let mut first = IdScopes::new();
    let (ca, cb) = (counters.new_counter(), counters.new_counter());
    let a1 = alloc_in(&mut first, &mut counters, &a, ca);
    let b1 = alloc_in(&mut first, &mut counters, &b, cb);
    let a2 = alloc_in(&mut first, &mut counters, &a, ca);

    let mut counters = Counters(Vec::new());
    let mut second = IdScopes::new();
    let (ca, cb) = (counters.new_counter(), counters.new_counter());
    let b1_ = alloc_in(&mut second, &mut counters, &b, cb);
    let a1_ = alloc_in(&mut second, &mut counters, &a, ca);
    let a2_ = alloc_in(&mut second, &mut counters, &a, ca);

    assert_eq!((a1.as_str(), a2.as_str(), b1.as_str()), ("1.0", "1.1", "2.0"));
    assert_eq!((a1, a2, b1), (a1_, a2_, b1_));
}

#[test]
fn exit_restores_after_nested_history() {
    let mut counters = Counters(Vec::new());
    let mut scopes = IdScopes::new();
    let c0 = counters.new_counter();
    let c1 = counters.new_counter();
    let outer = enter_id_scope(&mut scopes, SerializedDataId::new(3), c0);
    let g = enter_id_scope(&mut scopes, SerializedDataId::new(8), c1);
    let t = enter_throwaway_id_scope(&mut scopes);
    assert_eq!(next(&scopes, &mut counters).as_deref(), Some("discard"));
    exit_id_scope(&mut scopes, t);
    assert_eq!(next(&scopes, &mut counters).as_deref(), Some("8.0"));
    exit_id_scope(&mut scopes, g);
    // as if the inner scopes had never been entered; their counter keeps its value
    assert_eq!(next(&scopes, &mut counters).as_deref(), Some("3.0"));
    assert_eq!(counters.0[c1], 1);
    exit_id_scope(&mut scopes, outer);
}

#[test]
fn exit_without_scope_is_harmless() {
    let mut scopes: IdScopes<usize> = IdScopes::new();
    let g = enter_throwaway_id_scope(&mut scopes);
    exit_id_scope(&mut scopes, g);
    let g2 = enter_throwaway_id_scope(&mut scopes);
    exit_id_scope(&mut scopes, g2);
    assert_eq!(scoped_next_id(&scopes, 0), None);
}

#[test]
fn next_id_draws_the_shared_atomic_counter() {

    let counter = Arc::new(AtomicU64::new(5));
    let mut scopes = IdScopes::new();
    assert_eq!(next_id(&scopes), None);
    let g = enter_id_scope(&mut scopes, SerializedDataId::new(4), Arc::clone(&counter));
    assert_eq!(counter.load(Ordering::SeqCst), 5); // entering allocates nothing
    assert_eq!(next_id(&scopes).unwrap().as_key(), "4.5");
    assert_eq!(next_id(&scopes).unwrap().as_key(), "4.6");
    assert_eq!(counter.load(Ordering::SeqCst), 7);
    let t = enter_throwaway_id_scope(&mut scopes);
    assert_eq!(next_id(&scopes).unwrap().as_key(), "discard");
    exit_id_scope(&mut scopes, t);
    assert_eq!(counter.load(Ordering::SeqCst), 7);
    exit_id_scope(&mut scopes, g);
    assert_eq!(next_id(&scopes), None);
}

#[test]
fn counter_numbering_wraps() {

    let counter = Arc::new(AtomicU64::new(u64::MAX));
    let mut scopes = IdScopes::new();
    let g = enter_id_scope(&mut scopes, SerializedDataId::new(1), counter);
    assert_eq!(next_id(&scopes).unwrap().as_key(), format!("1.{}", u64::MAX));
    assert_eq!(next_id(&scopes).unwrap().as_key(), "1.0");
    exit_id_scope(&mut scopes, g);
}
