use nail_agent::hints::{drain_hints, has_hints, push_hint, HintQueue};

#[test]
fn hints_drain_once_each_in_first_order() {
    let mut q = HintQueue::new();
    assert!(!has_hints(&q));
    push_hint(&mut q, "b");
    push_hint(&mut q, "a");
    push_hint(&mut q, "b");
    assert!(has_hints(&q));
    assert_eq!(drain_hints(&mut q), vec!["b".to_string(), "a".to_string()]);
    assert!(!has_hints(&q));
    assert!(drain_hints(&mut q).is_empty());
}
