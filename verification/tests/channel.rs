use statsd_client::channel::{normalize_prefix, ChannelError, Registry};
use std::rc::Rc;

#[test]
fn separator_is_appended_where_absent() {
    assert_eq!(normalize_prefix("app"), "app.");
    assert_eq!(normalize_prefix("a.b.c"), "a.b.c.");
    assert_eq!(normalize_prefix(""), ".");
}

#[test]
fn one_separator_is_left_as_it_is() {
    assert_eq!(normalize_prefix("app."), "app.");
    assert_eq!(normalize_prefix("a.b."), "a.b.");
    assert_eq!(normalize_prefix("."), ".");
}

#[test]
fn several_separators_become_one() {
    assert_eq!(normalize_prefix("app.."), "app.");
    assert_eq!(normalize_prefix("app....."), "app.");
    assert_eq!(normalize_prefix("..."), ".");
    assert_eq!(normalize_prefix("a..b.."), "a..b.");
}

#[test]
fn normalizing_twice_is_normalizing_once() {
    for prefix in ["", ".", "a", "a.", "a..", "a.b", "\u{e9}t\u{e9}..", "x.y.z..."] {
        let once = normalize_prefix(prefix);
        assert_eq!(normalize_prefix(&once), once);
        assert!(once.ends_with('.'));
        assert!(!once.ends_with(".."));
    }
}

#[test]
fn a_new_registry_has_no_channel() {
    let registry: Registry<u32> = Registry::new();
    assert_eq!(registry.channel(), None);
    assert_eq!(registry.key_prefix(), "");
}

#[test]
fn the_first_initialization_installs_its_endpoint() {
    let mut registry = Registry::new();
    assert_eq!(registry.initialize(Ok("10.0.0.1:8125"), "app"), Ok(()));
    assert_eq!(registry.channel(), Some(&"10.0.0.1:8125"));
    assert_eq!(registry.key_prefix(), "app.");
}

#[test]
fn a_second_initialization_succeeds_and_changes_nothing() {
    let mut registry = Registry::new();
    assert_eq!(registry.initialize(Ok("10.0.0.1:8125"), "first"), Ok(()));
    assert_eq!(registry.initialize(Ok("10.0.0.2:8125"), "second"), Ok(()));
    assert_eq!(registry.channel(), Some(&"10.0.0.1:8125"));
    assert_eq!(registry.key_prefix(), "first.");
}

#[test]
fn a_failed_setup_leaves_the_registry_free_for_a_retry() {
    let mut registry: Registry<u32> = Registry::new();
    assert_eq!(registry.initialize(Err(ChannelError::Bind), "a"), Err(ChannelError::Bind));
    assert_eq!(registry.channel(), None);
    assert_eq!(
        registry.initialize(Err(ChannelError::NonBlocking), "b"),
        Err(ChannelError::NonBlocking)
    );
    assert_eq!(registry.initialize(Err(ChannelError::Connect), "c"), Err(ChannelError::Connect));
    assert_eq!(registry.channel(), None);
    assert_eq!(registry.key_prefix(), "");
    assert_eq!(registry.initialize(Ok(7), "d"), Ok(()));
    assert_eq!(registry.channel(), Some(&7));
    assert_eq!(registry.key_prefix(), "d.");
}

#[test]
fn a_failed_setup_does_not_touch_an_installed_channel() {
    let mut registry: Registry<u32> = Registry::new();
    assert_eq!(registry.initialize(Ok(7), "d"), Ok(()));
    assert_eq!(registry.initialize(Err(ChannelError::Connect), "e"), Err(ChannelError::Connect));
    assert_eq!(registry.channel(), Some(&7));
    assert_eq!(registry.key_prefix(), "d.");
}

#[test]
fn the_losing_endpoint_is_dropped() {
    let first = Rc::new(1);
    let second = Rc::new(2);
    let mut registry = Registry::new();
    assert_eq!(registry.initialize(Ok(first.clone()), "a"), Ok(()));
    assert_eq!(registry.initialize(Ok(second.clone()), "b"), Ok(()));
    assert_eq!(Rc::strong_count(&first), 2);
    assert_eq!(Rc::strong_count(&second), 1);
}
