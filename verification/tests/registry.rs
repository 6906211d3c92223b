use vanvitelli::gatherers::registry::{
    extract_version_and_gatherer_name, GatherersRegistryBuilder, RegistryErrors,
};

#[test]
fn test_registry_building() {
    let mut builder: GatherersRegistryBuilder<u32> = GatherersRegistryBuilder::new();
    builder.add_gatherer("test_gatherer", "v1", 1);
    builder.add_gatherer("test_gatherer", "v2", 2);
    builder.add_gatherer("another_test", "v1", 3);

    let registry = builder.build_registry();

    let available = registry.inspect_gatherers();

    assert!(available.contains(&"another_test - v1".to_owned()));
    assert!(available.contains(&"test_gatherer - v1/v2".to_owned()));
}

#[test]
fn test_registry_get_gatherer_invalid_name_format() {
    let mut builder: GatherersRegistryBuilder<u32> = GatherersRegistryBuilder::new();
    builder.add_gatherer("test_gatherer", "v1", 1);
    let registry = builder.build_registry();

    let registry_error = registry
        .get_gatherer("other@v2@v2".to_owned())
        .err()
        .unwrap();

    assert_eq!(
        registry_error,
        RegistryErrors::GathererNameAndVersionError("other@v2@v2".to_owned())
    )
}

#[test]
fn test_registry_get_gatherer_not_found() {
    let mut builder: GatherersRegistryBuilder<u32> = GatherersRegistryBuilder::new();
    builder.add_gatherer("test_gatherer", "v1", 1);
    let registry = builder.build_registry();

    let registry_error = registry.get_gatherer("other".to_owned()).err().unwrap();

    assert_eq!(
        registry_error,
        RegistryErrors::GathererNotFoundError("other".to_owned())
    )
}

#[test]
fn test_registry_get_gatherer_not_found_with_version() {
    let mut builder: GatherersRegistryBuilder<u32> = GatherersRegistryBuilder::new();
    builder.add_gatherer("test_gatherer", "v1", 1);
    let registry = builder.build_registry();

    let registry_error = registry.get_gatherer("other@v1".to_owned()).err().unwrap();

    assert_eq!(
        registry_error,
        RegistryErrors::GathererNotFoundError("other@v1".to_owned())
    )
}

#[test]
fn test_registry_get_gather_found_with_version() {
    let mut builder: GatherersRegistryBuilder<u32> = GatherersRegistryBuilder::new();
    builder.add_gatherer("test_gatherer", "v1", 1);
    builder.add_gatherer("test_gatherer", "v2", 2);

    let registry = builder.build_registry();

    let gatherer = registry
        .get_gatherer("test_gatherer@v1".to_owned())
        .unwrap();

    assert_eq!(*gatherer, 1)
}

#[test]
fn test_registry_get_gather_found_without_version() {
    let mut builder: GatherersRegistryBuilder<u32> = GatherersRegistryBuilder::new();
    builder.add_gatherer("test_gatherer", "v1", 1);
    builder.add_gatherer("test_gatherer", "v2", 2);

    let registry = builder.build_registry();

    let gatherer = registry.get_gatherer("test_gatherer".to_owned()).unwrap();

    assert_eq!(*gatherer, 2)
}

#[test]
fn test_latest_version_selection_is_lexicographic() {
    let mut builder: GatherersRegistryBuilder<u32> = GatherersRegistryBuilder::new();
    builder.add_gatherer("g", "v1", 1);
    builder.add_gatherer("g", "v2", 2);
    let registry = builder.build_registry();
    assert_eq!(*registry.get_gatherer("g".to_owned()).unwrap(), 2);

    let mut builder: GatherersRegistryBuilder<u32> = GatherersRegistryBuilder::new();
    builder.add_gatherer("g", "v9", 9);
    builder.add_gatherer("g", "v10", 10);
    let registry = builder.build_registry();
    // plain string comparison ranks "v9" above "v10"
    assert_eq!(*registry.get_gatherer("g".to_owned()).unwrap(), 9);

    let mut builder: GatherersRegistryBuilder<u32> = GatherersRegistryBuilder::new();
    builder.add_gatherer("g", "v1", 1);
    builder.add_gatherer("g", "v2", 2);
    builder.add_gatherer("g", "v9", 9);
    builder.add_gatherer("g", "v10", 10);
    let registry = builder.build_registry();
    assert_eq!(*registry.get_gatherer("g".to_owned()).unwrap(), 9);
}

#[test]
fn test_malformed_reference_is_rejected() {
    let registry = GatherersRegistryBuilder::<u32>::new().build_registry();
    assert_eq!(
        registry.get_gatherer("a@b@c".to_owned()).err().unwrap(),
        RegistryErrors::GathererNameAndVersionError("a@b@c".to_owned())
    );
}

#[test]
fn test_missing_name_on_empty_registry() {
    let registry = GatherersRegistryBuilder::<u32>::new().build_registry();
    assert_eq!(
        registry.get_gatherer("missing".to_owned()).err().unwrap(),
        RegistryErrors::GathererNotFoundError("missing".to_owned())
    );
}

#[test]
fn test_registering_same_pair_twice_overwrites() {
    let mut builder: GatherersRegistryBuilder<u32> = GatherersRegistryBuilder::new();
    builder.add_gatherer("g", "v1", 1);
    builder.add_gatherer("g", "v1", 2);
    let registry = builder.build_registry();
    assert_eq!(*registry.get_gatherer("g@v1".to_owned()).unwrap(), 2);
    let available = registry.inspect_gatherers();
    assert_eq!(available, vec!["g - v1".to_owned()]);
}

#[test]
fn test_extract_version_and_gatherer_name() {
    assert_eq!(
        extract_version_and_gatherer_name("checker").unwrap(),
        ("checker".to_owned(), None)
    );
    assert_eq!(
        extract_version_and_gatherer_name("checker@v1").unwrap(),
        ("checker".to_owned(), Some("v1".to_owned()))
    );
    assert_eq!(
        extract_version_and_gatherer_name("a@b@c").err().unwrap(),
        RegistryErrors::GathererNameAndVersionError("a@b@c".to_owned())
    );
}
