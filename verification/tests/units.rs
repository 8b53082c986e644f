use wonnx::compiler::dispatch_groups;
use wonnx::compute::{advance, poll_again, RunEvent, RunState};
use wonnx::get_attribute;
use wonnx::onnx::{elem_count, Attribute, AttributeValue, Node};
use wonnx::utils::u64_string;
use wonnx::SessionError;

#[test]
fn dispatch_tiling_exact_values() {
    assert_eq!(dispatch_groups(1), (1, 1, 1));
    assert_eq!(dispatch_groups(4), (1, 1, 1));
    assert_eq!(dispatch_groups(256), (1, 1, 1));
    assert_eq!(dispatch_groups(257), (2, 1, 1));
    assert_eq!(dispatch_groups(256 * 65535), (65535, 1, 1));
    assert_eq!(dispatch_groups(256 * 65535 + 1), (65535, 2, 1));
    assert_eq!(dispatch_groups(2147483648), (65535, 129, 1));
}

#[test]
fn decimal_rendering() {
    assert_eq!(u64_string(0), "0");
    assert_eq!(u64_string(7), "7");
    assert_eq!(u64_string(10), "10");
    assert_eq!(u64_string(65535), "65535");
    assert_eq!(u64_string(4294967296), "4294967296");
    assert_eq!(u64_string(u64::MAX), "18446744073709551615");
}

#[test]
fn element_counts() {
    assert_eq!(elem_count(&vec![]), Some(1));
    assert_eq!(elem_count(&vec![2, 3, 4]), Some(24));
    // A zero dimension is rejected.
    assert_eq!(elem_count(&vec![2, 0]), None);
    // A count beyond the dispatchable range is rejected.
    assert_eq!(elem_count(&vec![4294967296, 2]), None);
    // Rank beyond the accepted limit is rejected.
    assert_eq!(elem_count(&vec![1, 1, 1, 1, 1, 1, 1, 1, 1]), None);
    assert_eq!(elem_count(&vec![1, 1, 1, 1, 1, 1, 1, 1]), Some(1));
}

#[test]
fn run_state_machine() {
    // The single success path.
    let s = RunState::Compiling;
    let s = advance(s, RunEvent::Submit);
    assert_eq!(s, RunState::Submitted);
    let s = advance(s, RunEvent::MapRequest);
    assert_eq!(s, RunState::Mapping);
    let s = advance(s, RunEvent::MapSuccess);
    assert_eq!(s, RunState::Ready);
    // Readiness is absorbing.
    assert_eq!(advance(s, RunEvent::DeviceLost), RunState::Ready);
    // Failure events, and out-of-order events, are terminal.
    assert_eq!(advance(RunState::Mapping, RunEvent::MapFailure), RunState::Failed);
    assert_eq!(advance(RunState::Submitted, RunEvent::DeviceLost), RunState::Failed);
    assert_eq!(advance(RunState::Compiling, RunEvent::MapSuccess), RunState::Failed);
    assert_eq!(advance(RunState::Failed, RunEvent::Submit), RunState::Failed);
}

#[test]
fn bounded_polling() {
    assert!(poll_again(0, 3));
    assert!(poll_again(2, 3));
    assert!(!poll_again(3, 3));
    assert!(!poll_again(100, 3));
}

#[test]
fn attribute_lookup() {
    let n = Node {
        op_type: "ReduceSum".to_string(),
        name: "r".to_string(),
        input: vec![],
        output: vec![],
        attribute: vec![Attribute { name: "axis".to_string(), value: AttributeValue::Int(2) }],
    };
    match get_attribute("axis", None, &n) {
        Ok(AttributeValue::Int(v)) => assert_eq!(*v, 2),
        _ => panic!("expected the stored attribute"),
    }
    let default = AttributeValue::Int(1);
    match get_attribute("keepdims", Some(&default), &n) {
        Ok(AttributeValue::Int(v)) => assert_eq!(*v, 1),
        _ => panic!("expected the default"),
    }
    match get_attribute("keepdims", None, &n) {
        Err(SessionError::MissingAttribute(name)) => assert_eq!(name, "keepdims"),
        _ => panic!("expected a missing-attribute failure"),
    }
}
