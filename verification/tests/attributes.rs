use sprokkel::attributes::{AttributeValue, Attributes};

#[test]
fn attr_alphabetical() {
    let mut attributes = Attributes::new();

    attributes.push("foo", AttributeValue::Raw("".into()));
    attributes.push("bar", AttributeValue::Raw("".into()));
    attributes.push("qux", AttributeValue::Raw("".into()));
    attributes.push("cafe", AttributeValue::Raw("".into()));

    assert_eq!(attributes.len(), 4);
    assert_eq!(attributes.name_at(0), "bar");
    assert_eq!(attributes.name_at(1), "cafe");
    assert_eq!(attributes.name_at(2), "foo");
    assert_eq!(attributes.name_at(3), "qux");
}

#[test]
fn attr_override() {
    let mut attributes = Attributes::new();

    attributes.push("foo", AttributeValue::Raw("".into()));
    assert_eq!(attributes.get("foo").unwrap(), &AttributeValue::Raw("".into()),);
    attributes.push("foo", AttributeValue::Raw("bar".into()));
    assert_eq!(attributes.get("foo").unwrap(), &AttributeValue::Raw("bar".into()),);
}

#[test]
fn attr_repush_keeps_position() {
    let mut attributes = Attributes::new();
    attributes.push("b", AttributeValue::raw("1"));
    attributes.push("a", AttributeValue::raw("2"));
    attributes.push("c", AttributeValue::raw("3"));
    attributes.push("b", AttributeValue::raw("4"));

    assert_eq!(attributes.len(), 3);
    assert!(!attributes.is_empty());
    assert_eq!(attributes.name_at(0), "a");
    assert_eq!(attributes.name_at(1), "b");
    assert_eq!(attributes.name_at(2), "c");
    assert_eq!(attributes.value_at(1).as_str(), "4");
    assert!(attributes.get("d").is_none());
}

#[test]
fn attr_empty() {
    let attributes = Attributes::with_capacity(4);
    assert_eq!(attributes.len(), 0);
    assert!(attributes.is_empty());
    assert!(attributes.get("a").is_none());
}

#[test]
fn attr_order_is_bytewise() {
    let mut attributes = Attributes::new();
    attributes.push("é", AttributeValue::raw(""));
    attributes.push("z", AttributeValue::raw(""));
    attributes.push("Z", AttributeValue::raw(""));
    attributes.push("", AttributeValue::raw(""));
    attributes.push("za", AttributeValue::raw(""));
    let names: Vec<&str> = (0..attributes.len()).map(|i| attributes.name_at(i)).collect();
    assert_eq!(names, vec!["", "Z", "z", "za", "é"]);
}

#[test]
fn attr_clone_is_equal() {
    let mut attributes = Attributes::new();
    attributes.push("x", AttributeValue::Jotdown("1".into()));
    attributes.push("a", AttributeValue::raw("2"));
    let copy = attributes.clone();
    assert_eq!(copy.len(), 2);
    assert_eq!(copy.name_at(0), "a");
    assert_eq!(copy.value_at(1), &AttributeValue::Jotdown("1".into()));
}

#[test]
fn attr_equality_ignores_insertion_order() {
    let mut first = Attributes::new();
    first.push("id", AttributeValue::raw("x"));
    first.push("class", AttributeValue::raw("a"));
    first.push("class", AttributeValue::raw("b"));
    let mut second = Attributes::new();
    second.push("class", AttributeValue::raw("b"));
    second.push("id", AttributeValue::raw("y"));
    second.push("id", AttributeValue::raw("x"));
    assert!(first.same_as(&second));
    assert_eq!(first, second);

    second.push("id", AttributeValue::raw("z"));
    assert!(!first.same_as(&second));
    second.push("id", AttributeValue::raw("x"));
    second.push("lang", AttributeValue::raw("en"));
    assert_ne!(first, second);
    assert_eq!(Attributes::new(), Attributes::with_capacity(3));
}

#[test]
fn attr_classes_are_joined() {
    let mut attributes = Attributes::new();
    attributes.push("class", AttributeValue::raw("a"));
    let joined = sprokkel::attributes::add_class(&attributes, "b");
    assert_eq!(joined.get("class").unwrap().as_str(), "a b");
    assert_eq!(sprokkel::attributes::add_class(&Attributes::new(), "b").get("class").unwrap().as_str(), "b");
    assert!(sprokkel::attributes::add_class(&Attributes::new(), "").is_empty());
}

#[test]
fn attr_value_is_stored_as_it_is_given() {
    let mut attributes = Attributes::new();
    attributes.push("foo", AttributeValue::Jotdown("x".into()));
    assert_eq!(attributes.get("foo"), Some(&AttributeValue::Jotdown("x".into())));
    attributes.push("foo", AttributeValue::Raw("x".into()));
    assert_eq!(attributes.get("foo"), Some(&AttributeValue::Raw("x".into())));
    assert_eq!(attributes.len(), 1);
    assert!(attributes.get("bar").is_none());

    let mut other = Attributes::new();
    other.push("foo", AttributeValue::Jotdown("x".into()));
    assert!(!attributes.same_as(&other));
    assert_ne!(attributes, other);
    assert!(!AttributeValue::raw("x").same_as(&AttributeValue::Jotdown("x".into())));
    assert!(AttributeValue::raw("x").same_as(&AttributeValue::Raw("x".into())));
    assert!(!AttributeValue::raw("x").same_as(&AttributeValue::raw("y")));
}
