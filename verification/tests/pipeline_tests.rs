use rustmorphism::errors::BuildError;
use rustmorphism::fingerprint::BuildFingerprint;
use rustmorphism::obfuscation::{essence_lines, ObfuscationConfig};
use rustmorphism::polymorphic_fn;
use rustmorphism::registry::parse;
use rustmorphism::selection::{DeterministicHash, RandomUniform, SelectionPolicy};
use rustmorphism::synthesis::{synthesize, synthesize_lines};
use rustmorphism::text::contains_bytes;

fn b(s: &str) -> Vec<u8> {
    s.as_bytes().to_vec()
}

fn sample_fingerprint(counter: u64) -> BuildFingerprint {
    let mut fp = BuildFingerprint::new();
    fp.function_name = Some("compute".to_string());
    fp.package_name = Some("demo".to_string());
    fp.package_version = Some("0.1.0".to_string());
    fp.target_triple = Some("x86_64-unknown-linux-gnu".to_string());
    fp.profile = Some("release".to_string());
    fp.build_counter = Some(format!("{}", counter));
    fp
}

#[test]
fn deterministic_pipeline_reproduces_one_candidate() {
    let decl = b("pub function compute(x: i32) -> i32\n{ x + 1 }\n{ x * 2 }");
    let d = parse(&decl).unwrap();
    let idx = DeterministicHash::new(sample_fingerprint(7)).select(2);
    let expected = synthesize_lines(&d.signature, &d.variants, idx).unwrap();
    for _ in 0..10 {
        let policy =
            SelectionPolicy::DeterministicHash(DeterministicHash::new(sample_fingerprint(7)));
        let out = polymorphic_fn(&decl, &policy, &ObfuscationConfig::default()).unwrap();
        assert_eq!(essence_lines(&out), essence_lines(&expected));
    }
}

#[test]
fn counter_change_can_pick_the_other_candidate() {
    let decl = b("pub function compute(x: i32) -> i32\n{ x + 1 }\n{ x * 2 }");
    let d = parse(&decl).unwrap();
    let mut seen = [false; 2];
    for counter in 0..64 {
        let idx = DeterministicHash::new(sample_fingerprint(counter)).select(2);
        seen[idx] = true;
        // The selected candidate decides the function's value for x = 5:
        // index 0 emits the body computing 6, index 1 the body computing 10.
        let out = synthesize(&d.signature, &d.variants, idx).unwrap();
        if idx == 0 {
            assert!(contains_bytes(&out, &b("x + 1")));
            assert!(!contains_bytes(&out, &b("x * 2")));
        } else {
            assert!(contains_bytes(&out, &b("x * 2")));
            assert!(!contains_bytes(&out, &b("x + 1")));
        }
    }
    assert!(seen[0] && seen[1], "no counter in 0..64 reached one of the two candidates");
}

#[test]
fn random_pipeline_emits_one_of_the_declared_factorials() {
    let decl = b(
        "pub function factorial(n: u64) -> u64\n{ if n <= 1 { 1 } else { n * factorial(n - 1) } }\n{ let mut acc = 1; for i in 2..=n { acc *= i; } acc }\n{ (1..=n).product() }",
    );
    let d = parse(&decl).unwrap();
    let policy = SelectionPolicy::RandomUniform(RandomUniform::new());
    let out = polymorphic_fn(&decl, &policy, &ObfuscationConfig::default()).unwrap();
    let candidates: Vec<Vec<Vec<u8>>> = (0..3)
        .map(|i| synthesize_lines(&d.signature, &d.variants, i).unwrap())
        .collect();
    let essence = essence_lines(&out);
    assert!(
        candidates.iter().any(|c| essence_lines(c) == essence),
        "the emitted text matches none of the declared candidates"
    );
}

#[test]
fn pipeline_propagates_parse_errors() {
    let policy = SelectionPolicy::RandomUniform(RandomUniform::new());
    match polymorphic_fn(&b("not a declaration"), &policy, &ObfuscationConfig::default()) {
        Err(e) => assert_eq!(e, BuildError::MalformedDeclaration),
        Ok(_) => panic!("a malformed declaration must abort the pipeline"),
    }
    match polymorphic_fn(
        &b("function empty() -> u64"),
        &policy,
        &ObfuscationConfig::default(),
    ) {
        Err(e) => assert_eq!(e, BuildError::EmptyVariantSet),
        Ok(_) => panic!("a declaration without candidates must abort the pipeline"),
    }
}
