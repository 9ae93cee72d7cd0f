//! Behaviour of the filter registry through its public surface: the two
//! original scenarios over integers and text, the identity paths, priority
//! ordering, stability, removal, and the type-consistency fault.

use hook_filters::DispatchError;
use hook_filters::FilterCallback;
use hook_filters::FilterRegistry;
use hook_filters::FilterValue;
use hook_filters::ValueKind;
use hook_filters::ValueModel;

/// Integer transforms used by the tests.
enum IntOp {
    AddOne,
    Triple,
}

impl FilterCallback for IntOp {
    // The two specification items of the trait are ghost: they are erased
    // from compiled code and never run, so handing the model value back
    // satisfies the compiler.
    fn declared_kind(&self) -> ValueKind {
        ValueKind::Int
    }

    fn transform(&self, v: ValueModel) -> ValueModel {
        v
    }

    fn kind(&self) -> ValueKind {
        ValueKind::Int
    }

    fn call(&self, v: FilterValue) -> FilterValue {
        match (self, v) {
            (IntOp::AddOne, FilterValue::Int(n)) => FilterValue::Int(n + 1),
            (IntOp::Triple, FilterValue::Int(n)) => FilterValue::Int(n * 3),
            (_, other) => other,
        }
    }
}

/// Text transforms used by the tests.
enum TextOp {
    Greet,
    Upper,
}

impl FilterCallback for TextOp {
    fn declared_kind(&self) -> ValueKind {
        ValueKind::Text
    }

    fn transform(&self, v: ValueModel) -> ValueModel {
        v
    }

    fn kind(&self) -> ValueKind {
        ValueKind::Text
    }

    fn call(&self, v: FilterValue) -> FilterValue {
        match (self, v) {
            (TextOp::Greet, FilterValue::Text(s)) => FilterValue::Text(format!("Hello, {}", s)),
            (TextOp::Upper, FilterValue::Text(s)) => FilterValue::Text(s.to_uppercase()),
            (_, other) => other,
        }
    }
}

#[test]
fn test_filters_i32() {
    let hook = "modify_int";
    let mut reg: FilterRegistry<IntOp> = FilterRegistry::new();
    reg.add_filter(hook, 10, IntOp::AddOne);
    reg.add_filter(hook, 20, IntOp::Triple);
    let result = reg.apply_filters(hook, FilterValue::Int(4));
    assert_eq!(result, Ok(FilterValue::Int(15)));
}

#[test]
fn test_filters_string() {
    let hook = "modify_string";
    let mut reg: FilterRegistry<TextOp> = FilterRegistry::new();
    reg.add_filter(hook, 10, TextOp::Greet);
    reg.add_filter(hook, 20, TextOp::Upper);
    let result = reg.apply_filters(hook, FilterValue::Text("world".to_string()));
    assert_eq!(result, Ok(FilterValue::Text("HELLO, WORLD".to_string())));
}

#[test]
fn unknown_hook_is_identity() {
    let reg: FilterRegistry<IntOp> = FilterRegistry::new();
    let result = reg.apply_filters("nothing_here", FilterValue::Int(42));
    assert_eq!(result, Ok(FilterValue::Int(42)));
    let text = reg.apply_filters("nothing_here", FilterValue::Text("same".to_string()));
    assert_eq!(text, Ok(FilterValue::Text("same".to_string())));
}

#[test]
fn lower_priority_runs_first_whatever_the_registration_order() {
    // Registered high priority first; the priority-10 filter must still run
    // first: (4 * 3) + 1 would be 13, (4 + 1) * 3 is 15.
    let hook = "ordering";
    let mut reg: FilterRegistry<IntOp> = FilterRegistry::new();
    reg.add_filter(hook, 20, IntOp::Triple);
    reg.add_filter(hook, 10, IntOp::AddOne);
    let result = reg.apply_filters(hook, FilterValue::Int(4));
    assert_eq!(result, Ok(FilterValue::Int(15)));
    let table = reg.filter_table(hook);
    assert_eq!(table[0].1, 10);
    assert_eq!(table[1].1, 20);
}

#[test]
fn equal_priority_keeps_registration_order() {
    // Both at priority 10: the first registered runs first, so the result is
    // (4 + 1) * 3 = 15 and not 4 * 3 + 1 = 13.
    let hook = "stable";
    let mut reg: FilterRegistry<IntOp> = FilterRegistry::new();
    let first = reg.add_filter(hook, 10, IntOp::AddOne);
    let second = reg.add_filter(hook, 10, IntOp::Triple);
    assert!(first < second);
    let result = reg.apply_filters(hook, FilterValue::Int(4));
    assert_eq!(result, Ok(FilterValue::Int(15)));
    let table = reg.filter_table(hook);
    assert_eq!(table, vec![(first, 10), (second, 10)]);
}

#[test]
fn remove_filter_removes_exactly_one() {
    let hook = "removal";
    let mut reg: FilterRegistry<IntOp> = FilterRegistry::new();
    let id_a = reg.add_filter(hook, 10, IntOp::AddOne);
    let id_b = reg.add_filter(hook, 20, IntOp::Triple);
    let id_c = reg.add_filter(hook, 30, IntOp::AddOne);
    assert!(reg.remove_filter(hook, id_b));
    // The removed id is gone, the other entries keep their relative order.
    let table = reg.filter_table(hook);
    assert_eq!(table, vec![(id_a, 10), (id_c, 30)]);
    // Removing the same id again finds nothing.
    assert!(!reg.remove_filter(hook, id_b));
    // Unknown hook or unknown id: false, nothing changes.
    assert!(!reg.remove_filter("nothing_here", id_a));
    assert!(!reg.remove_filter(hook, 999));
    assert_eq!(reg.filter_count(hook), 2);
}

#[test]
fn remove_all_filters_deletes_the_hook() {
    let hook = "cleared";
    let mut reg: FilterRegistry<IntOp> = FilterRegistry::new();
    reg.add_filter(hook, 10, IntOp::AddOne);
    reg.add_filter(hook, 20, IntOp::Triple);
    let kept = reg.add_filter("untouched", 5, IntOp::Triple);
    reg.remove_all_filters(hook);
    assert!(!reg.hook_exists(hook));
    assert_eq!(reg.filter_count(hook), 0);
    // Dispatch on the cleared hook is the identity again.
    let result = reg.apply_filters(hook, FilterValue::Int(4));
    assert_eq!(result, Ok(FilterValue::Int(4)));
    // Clearing twice is a no-op.
    reg.remove_all_filters(hook);
    assert!(!reg.hook_exists(hook));
    // A later registration recreates the hook fresh, with a fresh id.
    let fresh = reg.add_filter(hook, 7, IntOp::AddOne);
    assert!(fresh > kept);
    assert_eq!(reg.filter_table(hook), vec![(fresh, 7)]);
    // The other hook was never touched.
    assert_eq!(reg.filter_table("untouched"), vec![(kept, 5)]);
}

#[test]
fn registrations_get_distinct_ids_and_stay_sorted() {
    // Two registrations on one hook, as two racing components would make
    // them one after the other under the registry's write access: both end
    // up present, with distinct ids, in a fully sorted sequence.
    let hook = "shared";
    let mut reg: FilterRegistry<IntOp> = FilterRegistry::new();
    let id_late = reg.add_filter(hook, 20, IntOp::Triple);
    let id_early = reg.add_filter(hook, 10, IntOp::AddOne);
    assert_ne!(id_late, id_early);
    assert_eq!(reg.filter_count(hook), 2);
    let table = reg.filter_table(hook);
    assert!(table.windows(2).all(|w| w[0].1 <= w[1].1));
    assert_eq!(table, vec![(id_early, 10), (id_late, 20)]);
}

#[test]
fn mismatched_value_kind_is_a_fault() {
    let hook = "typed";
    let mut reg: FilterRegistry<IntOp> = FilterRegistry::new();
    reg.add_filter(hook, 10, IntOp::AddOne);
    // The hook's filters are declared over integers; dispatching text on it
    // takes the type-consistency fault path.
    let result = reg.apply_filters(hook, FilterValue::Text("oops".to_string()));
    assert_eq!(result, Err(DispatchError::TypeMismatch));
    // The integer path on the same hook still works.
    let ok = reg.apply_filters(hook, FilterValue::Int(1));
    assert_eq!(ok, Ok(FilterValue::Int(2)));
}

#[test]
fn ids_are_nonzero_and_grow_across_hooks() {
    let mut reg: FilterRegistry<IntOp> = FilterRegistry::new();
    let a = reg.add_filter("one", 3, IntOp::AddOne);
    let b = reg.add_filter("two", 2, IntOp::Triple);
    let c = reg.add_filter("one", 1, IntOp::AddOne);
    assert_eq!((a, b, c), (1, 2, 3));
    assert!(a >= 1 && b >= 1 && c >= 1);
    assert_eq!(reg.next_filter_id(), 4);
}
