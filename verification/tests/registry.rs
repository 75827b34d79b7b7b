use rust_can::about::version;
use rust_can::registry::{find_adapter, list_adapters, AdapterInfo};

#[test]
fn adapter_info_builders_set_capabilities() {
    let info = AdapterInfo::new("mock", "Mock adapter")
        .with_fd_support(true)
        .with_xl_support(true)
        .with_hw_filters(true);

    assert_eq!(info.name, "mock");
    assert_eq!(info.description, "Mock adapter");
    assert!(info.supports_fd);
    assert!(info.supports_xl);
    assert!(info.supports_hw_filters);
    assert_eq!(info.version, version());
}

#[test]
fn registry_lists_and_finds_inserted_adapter() {
    let name = "unit-registry".to_string();
    let registry = vec![AdapterInfo::new(&name, "unit test")];

    assert!(list_adapters(&registry).contains(&name));
    assert_eq!(find_adapter(&registry, &name).unwrap().description, "unit test");
    assert!(find_adapter(&registry, "definitely-not-registered").is_none());
}

#[test]
fn new_adapter_info_starts_without_capabilities() {
    let info = AdapterInfo::new("virtual", "Virtual bus");
    assert!(!info.supports_fd);
    assert!(!info.supports_xl);
    assert!(!info.supports_hw_filters);
    assert!(info.platforms.is_empty());
    assert_eq!(info.version, "0.1.0");
}

#[test]
fn find_adapter_returns_the_first_of_equal_names() {
    let registry = vec![
        AdapterInfo::new("a", "first"),
        AdapterInfo::new("b", "other"),
        AdapterInfo::new("a", "second"),
    ];
    assert_eq!(list_adapters(&registry), vec!["a".to_string(), "b".to_string(), "a".to_string()]);
    assert_eq!(find_adapter(&registry, "a").unwrap().description, "first");
    assert_eq!(find_adapter(&registry, "b").unwrap().description, "other");
    assert!(list_adapters(&[]).is_empty());
}

#[test]
fn version_matches_the_package() {
    assert_eq!(version(), "0.1.0");
}
