use mdproof::style::{Class, Style};

#[test]
fn style_equality_is_order_independent() {
    let mut a = Style::new();
    a.insert(Class::Strong);
    a.insert(Class::Emphasis);
    let mut b = Style::new();
    b.insert(Class::Emphasis);
    b.insert(Class::Strong);
    assert!(a == b);
}

#[test]
fn style_duplicates_collapse() {
    let mut a = Style::new();
    a.insert(Class::Code);
    a.insert(Class::Code);
    let mut b = Style::new();
    b.insert(Class::Code);
    assert!(a == b);
}

#[test]
fn style_remove_only_removes_the_named_class() {
    let mut a = Style::new();
    a.insert(Class::Strong);
    a.insert(Class::Link);
    a.remove(&Class::Strong);
    assert!(!a.contains(&Class::Strong));
    assert!(a.contains(&Class::Link));
    let mut b = Style::new();
    b.insert(Class::Link);
    assert!(a == b);
}

#[test]
fn style_remove_of_absent_class_changes_nothing() {
    let mut a = Style::new();
    a.insert(Class::Note);
    a.remove(&Class::Superscript);
    let mut b = Style::new();
    b.insert(Class::Note);
    assert!(a == b);
}

#[test]
fn heading_levels_are_distinct_classes() {
    let mut a = Style::new();
    a.insert(Class::Heading(1));
    assert!(a.contains(&Class::Heading(1)));
    assert!(!a.contains(&Class::Heading(2)));
}

#[test]
fn default_style_is_empty() {
    let a: Style = Default::default();
    let b = Style::new();
    assert!(a == b);
    assert!(!a.contains(&Class::Strong));
}
