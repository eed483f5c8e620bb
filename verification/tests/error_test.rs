use linkedom_rust::DomError;

#[test]
fn error_messages_name_the_node() {
    assert_eq!(DomError::InvalidNode(7).message(), "invalid node id: 7");
    assert_eq!(DomError::InvalidNode(0).message(), "invalid node id: 0");
    assert_eq!(DomError::InvalidNode(4294967295).message(), "invalid node id: 4294967295");
    assert_eq!(DomError::NotAnElement(12).message(), "node 12 is not an element");
    assert_eq!(DomError::NotAnElement(1090).message(), "node 1090 is not an element");
}

#[test]
fn error_messages_without_a_node() {
    assert_eq!(DomError::CannotRemoveRoot.message(), "cannot remove the document root");
    assert_eq!(DomError::CannotAppendRoot.message(), "cannot append root as a child");
    assert_eq!(DomError::AlreadyAttached.message(), "child is already attached to a parent");
}

#[test]
fn errors_compare_by_variant_and_id() {
    assert_eq!(DomError::InvalidNode(3), DomError::InvalidNode(3).clone());
    assert_ne!(DomError::InvalidNode(3), DomError::NotAnElement(3));
    assert_ne!(DomError::InvalidNode(3), DomError::InvalidNode(4));
}
