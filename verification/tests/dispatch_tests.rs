use rustmorphism::dispatch::{
    all_implementations, dispatch, get_factorial_implementations, CharCount, DirectLength,
    FactorialImplementation, PolymorphicFunction, RecursiveCount,
};
use rustmorphism::errors::DispatchError;

#[test]
fn empty_catalog_fails_with_empty_catalog() {
    let catalog: Vec<FactorialImplementation> = Vec::new();
    match dispatch(&catalog, 3u64) {
        Err(e) => assert_eq!(e, DispatchError::EmptyCatalog),
        Ok(_) => panic!("dispatch on an empty catalog must fail"),
    }
}

#[test]
fn every_factorial_entry_computes_ten_factorial() {
    for c in get_factorial_implementations().iter() {
        assert_eq!(c.execute(10), 3628800);
    }
}

#[test]
fn factorial_edge_values() {
    for c in get_factorial_implementations().iter() {
        assert_eq!(c.execute(0), 1);
        assert_eq!(c.execute(1), 1);
        assert_eq!(c.execute(5), 120);
        assert_eq!(c.execute(20), 2432902008176640000);
    }
}

#[test]
fn dispatch_touches_every_entry() {
    let catalog = get_factorial_implementations();
    let mut seen = [false; 3];
    for _ in 0..1000 {
        let (value, name) = dispatch(&catalog, 10u64).unwrap();
        assert_eq!(value, 3628800);
        match name {
            "RecursiveFactorial" => seen[0] = true,
            "IterativeFactorial" => seen[1] = true,
            "FunctionalFactorial" => seen[2] = true,
            other => panic!("unknown capability identity: {}", other),
        }
    }
    assert!(seen.iter().all(|&s| s), "some catalog entry was never selected");
}

#[test]
fn string_length_capabilities_agree() {
    let text = "Hello, polymorphic world!";
    assert_eq!(DirectLength::new().execute(text), 25);
    assert_eq!(CharCount::new().execute(text), 25);
    assert_eq!(RecursiveCount::new().execute(text), 25);
    let catalog = all_implementations();
    for _ in 0..20 {
        let (len, name) = dispatch(&catalog, text).unwrap();
        assert_eq!(len, 25);
        assert!(
            name == "DirectLength" || name == "CharCount" || name == "RecursiveCount",
            "unknown capability identity: {}",
            name
        );
    }
}

#[test]
fn empty_text_has_length_zero_everywhere() {
    assert_eq!(DirectLength::new().execute(""), 0);
    assert_eq!(CharCount::new().execute(""), 0);
    assert_eq!(RecursiveCount::new().execute(""), 0);
}
