use std::any::TypeId;

use rust_pattern_components::{
    Factory, FactoryError, FactoryFallback, FactoryRegistry, SimpleFactory,
};

trait TestProduct {
    fn get_value(&self) -> &str;
}

struct ProductA {
    value: String,
}

impl TestProduct for ProductA {
    fn get_value(&self) -> &str {
        &self.value
    }
}

impl Default for ProductA {
    fn default() -> Self {
        Self {
            value: "default_a".to_string(),
        }
    }
}

struct ProductB {
    value: String,
}

impl TestProduct for ProductB {
    fn get_value(&self) -> &str {
        &self.value
    }
}

impl Default for ProductB {
    fn default() -> Self {
        Self {
            value: "default_b".to_string(),
        }
    }
}

struct ProductAFactory;

impl Factory<dyn TestProduct> for ProductAFactory {
    fn create(&self) -> Box<dyn TestProduct> {
        Box::<ProductA>::default()
    }
}

struct ProductBFactory;

impl Factory<dyn TestProduct> for ProductBFactory {
    fn create(&self) -> Box<dyn TestProduct> {
        Box::<ProductB>::default()
    }
}

/// The factories for `TestProduct` registered under "product_a" and
/// "product_b".
fn test_product_factory() -> SimpleFactory<dyn TestProduct> {
    SimpleFactory::from_registrations(&[
        FactoryRegistry::new("product_a", &ProductAFactory),
        FactoryRegistry::new("product_b", &ProductBFactory),
    ])
}

#[test]
fn test_factory_registration() {
    let factory = test_product_factory();

    let result_a = factory.create("product_a", FactoryFallback::NoFallback);
    assert!(result_a.is_ok(), "product_a factory should exist");

    let result_b = factory.create("product_b", FactoryFallback::NoFallback);
    assert!(result_b.is_ok(), "product_b factory should exist");
}

#[test]
fn test_factory_creation() {
    let factory = test_product_factory();

    let result = factory.create("product_a", FactoryFallback::NoFallback);
    assert!(result.is_ok());

    let (id, product) = result.unwrap();
    assert_eq!(id, "product_a");
    assert_eq!(product.get_value(), "default_a");

    let result = factory.create("product_b", FactoryFallback::NoFallback);
    assert!(result.is_ok());

    let (id, product) = result.unwrap();
    assert_eq!(id, "product_b");
    assert_eq!(product.get_value(), "default_b");
}

#[test]
fn test_factory_error_cases() {
    let factory = test_product_factory();

    let result = factory.create("non_existent", FactoryFallback::NoFallback);
    assert!(result.is_err());

    if let Err(FactoryError::FactoryNotFound(id)) = result {
        assert_eq!(id, "non_existent");
    } else {
        panic!("Expected FactoryNotFound error");
    }

    let result = factory.create("", FactoryFallback::NoFallback);
    assert!(result.is_err());

    if let Err(FactoryError::EmptyIdNoFallback) = result {
    } else {
        panic!("Expected EmptyIdNoFallback error");
    }
}

#[test]
fn test_factory_fallback_first() {
    let factory = test_product_factory();

    let result = factory.create("", FactoryFallback::First);
    match result {
        Ok((id, _)) => {
            assert!(!id.is_empty());
        }
        Err(FactoryError::NoFactoriesAvailable) => {}
        Err(e) => {
            panic!("Unexpected error: {:?}", e);
        }
    }

    let result = factory.create("invalid_id", FactoryFallback::First);
    match result {
        Ok((id, _)) => {
            assert!(!id.is_empty());
        }
        Err(FactoryError::FactoryNotFound(id)) => {
            assert_eq!(id, "invalid_id");
        }
        Err(FactoryError::NoFactoriesAvailable) => {}
        Err(e) => {
            panic!("Unexpected error: {:?}", e);
        }
    }
}

#[test]
fn test_factory_fallback_last() {
    let factory = test_product_factory();

    let result = factory.create("", FactoryFallback::Last);
    match result {
        Ok((id, _)) => {
            assert!(!id.is_empty());
        }
        Err(FactoryError::NoFactoriesAvailable) => {}
        Err(e) => {
            panic!("Unexpected error: {:?}", e);
        }
    }

    let result = factory.create("invalid_id", FactoryFallback::Last);
    match result {
        Ok((id, _)) => {
            assert!(!id.is_empty());
        }
        Err(FactoryError::FactoryNotFound(id)) => {
            assert_eq!(id, "invalid_id");
        }
        Err(FactoryError::NoFactoriesAvailable) => {}
        Err(e) => {
            panic!("Unexpected error: {:?}", e);
        }
    }
}

trait EmptyProduct {
    #[allow(dead_code)]
    fn dummy(&self);
}

#[test]
fn test_factory_no_factories_available() {
    let factory = SimpleFactory::<dyn EmptyProduct>::from_registrations(&[]);

    let result = factory.create("", FactoryFallback::First);
    assert!(result.is_err());

    if let Err(FactoryError::NoFactoriesAvailable) = result {
    } else {
        panic!("Expected NoFactoriesAvailable error");
    }

    let result = factory.create("", FactoryFallback::Last);
    assert!(result.is_err());

    if let Err(FactoryError::NoFactoriesAvailable) = result {
    } else {
        panic!("Expected NoFactoriesAvailable error");
    }
}

struct TestFactory;

impl Factory<String> for TestFactory {
    fn create(&self) -> Box<String> {
        Box::new("test".to_string())
    }
}

#[test]
fn test_factory_registry_new() {
    let factory = &TestFactory as &'static dyn Factory<String>;
    let registry = FactoryRegistry::new("test_id", factory);

    assert_eq!(registry.id(), "test_id");
    assert_eq!(registry.type_id(), TypeId::of::<String>());
}

#[test]
fn test_factory_error_display() {
    let error = FactoryError::FactoryNotFound("test_id".to_string());
    assert_eq!(error.to_string(), "未找到 ID 为 'test_id' 的工厂");

    let error = FactoryError::EmptyIdNoFallback;
    assert_eq!(error.to_string(), "不允许回退时提供了空 ID");

    let error = FactoryError::NoFactoriesAvailable;
    assert_eq!(error.to_string(), "没有可用的工厂");
}

#[test]
fn test_factory_fallback_debug() {
    assert_eq!(format!("{:?}", FactoryFallback::First), "First");
    assert_eq!(format!("{:?}", FactoryFallback::Last), "Last");
    assert_eq!(format!("{:?}", FactoryFallback::NoFallback), "NoFallback");
}

#[test]
fn test_factory_fallback_eq() {
    assert_eq!(FactoryFallback::First, FactoryFallback::First);
    assert_eq!(FactoryFallback::Last, FactoryFallback::Last);
    assert_eq!(FactoryFallback::NoFallback, FactoryFallback::NoFallback);
    assert_ne!(FactoryFallback::First, FactoryFallback::Last);
    assert_ne!(FactoryFallback::First, FactoryFallback::NoFallback);
}

#[test]
fn test_simple_factory_debug() {
    let factory = test_product_factory();
    let result = factory.create("product_a", FactoryFallback::NoFallback);
    assert!(result.is_ok());
}

struct NamedFactory(&'static str);

impl Factory<String> for NamedFactory {
    fn create(&self) -> Box<String> {
        Box::new(self.0.to_string())
    }
}

fn several_factories() -> SimpleFactory<String> {
    SimpleFactory::from_registrations(&[
        FactoryRegistry::new("zeta", &NamedFactory("zeta")),
        FactoryRegistry::new("alpha", &NamedFactory("alpha")),
        FactoryRegistry::new("middle", &NamedFactory("middle")),
    ])
}

#[test]
fn first_fallback_uses_smallest_identifier() {
    let factory = several_factories();
    let (id, product) = factory.create("", FactoryFallback::First).unwrap();
    assert_eq!(id, "alpha");
    assert_eq!(*product, "alpha");
}

#[test]
fn last_fallback_uses_largest_identifier() {
    let factory = several_factories();
    let (id, product) = factory.create("", FactoryFallback::Last).unwrap();
    assert_eq!(id, "zeta");
    assert_eq!(*product, "zeta");
}

#[test]
fn registered_identifier_ignores_strategy() {
    let factory = several_factories();
    for strategy in [FactoryFallback::First, FactoryFallback::Last, FactoryFallback::NoFallback] {
        let (id, product) = factory.create("middle", strategy).unwrap();
        assert_eq!(id, "middle");
        assert_eq!(*product, "middle");
    }
}

#[test]
fn missing_identifier_falls_back_as_the_strategy_says() {
    let factory = several_factories();
    let (id, product) = factory.create("missing", FactoryFallback::First).unwrap();
    assert_eq!(id, "alpha");
    assert_eq!(*product, "alpha");
    let (id, product) = factory.create("missing", FactoryFallback::Last).unwrap();
    assert_eq!(id, "zeta");
    assert_eq!(*product, "zeta");
    match factory.create("missing", FactoryFallback::NoFallback) {
        Err(FactoryError::FactoryNotFound(id)) => assert_eq!(id, "missing"),
        _ => panic!("Expected FactoryNotFound error"),
    }
}

#[test]
fn missing_identifier_in_empty_collection_has_no_fallback() {
    let factory = SimpleFactory::<String>::from_registrations(&[]);
    for strategy in [FactoryFallback::First, FactoryFallback::Last] {
        match factory.create("missing", strategy) {
            Err(FactoryError::NoFactoriesAvailable) => {}
            _ => panic!("Expected NoFactoriesAvailable error"),
        }
    }
}

#[test]
fn last_registration_under_an_identifier_wins() {
    let factory = SimpleFactory::from_registrations(&[
        FactoryRegistry::new("alpha", &NamedFactory("alpha")),
        FactoryRegistry::new("zeta", &NamedFactory("zeta")),
        FactoryRegistry::new("alpha", &NamedFactory("alpha again")),
    ]);
    let (id, product) = factory.create("alpha", FactoryFallback::NoFallback).unwrap();
    assert_eq!(id, "alpha");
    assert_eq!(*product, "alpha again");
    let (id, _) = factory.create("", FactoryFallback::Last).unwrap();
    assert_eq!(id, "zeta");
}

#[test]
fn identifiers_are_ordered_by_bytes() {
    // "Z" (0x5a) sorts before "a" (0x61), "ab" after its prefix "a", and a
    // multi-byte character after every ASCII one.
    let factory = SimpleFactory::from_registrations(&[
        FactoryRegistry::new("ab", &NamedFactory("ab")),
        FactoryRegistry::new("工", &NamedFactory("工")),
        FactoryRegistry::new("a", &NamedFactory("a")),
        FactoryRegistry::new("Z", &NamedFactory("Z")),
    ]);
    assert_eq!(factory.create("", FactoryFallback::First).unwrap().0, "Z");
    assert_eq!(factory.create("", FactoryFallback::Last).unwrap().0, "工");
    assert_eq!(*factory.create("a", FactoryFallback::NoFallback).unwrap().1, "a");
    assert_eq!(*factory.create("ab", FactoryFallback::NoFallback).unwrap().1, "ab");
}

#[test]
fn error_messages_name_the_identifier() {
    let factory = several_factories();
    match factory.create("omega", FactoryFallback::NoFallback) {
        Err(e) => assert_eq!(e.to_string(), "未找到 ID 为 'omega' 的工厂"),
        Ok(_) => panic!("Expected FactoryNotFound error"),
    }
}
