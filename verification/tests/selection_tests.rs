use rustmorphism::fingerprint::{advance_build_counter, BuildFingerprint};
use rustmorphism::selection::{hash_fingerprint, DeterministicHash, RandomUniform, SelectionPolicy};

fn sample_fingerprint(counter: u64) -> BuildFingerprint {
    let mut fp = BuildFingerprint::new();
    fp.function_name = Some("compute".to_string());
    fp.timestamp = Some("2024-01-01T00:00:00".to_string());
    fp.package_name = Some("demo".to_string());
    fp.package_version = Some("0.1.0".to_string());
    fp.target_triple = Some("x86_64-unknown-linux-gnu".to_string());
    fp.profile = Some("release".to_string());
    fp.build_counter = Some(format!("{}", counter));
    fp
}

#[test]
fn deterministic_selection_is_pure() {
    let first = DeterministicHash::new(sample_fingerprint(3)).select(7);
    for _ in 0..100 {
        let again = DeterministicHash::new(sample_fingerprint(3)).select(7);
        assert_eq!(again, first);
    }
    assert!(first < 7);
}

#[test]
fn equal_fingerprints_hash_alike() {
    let a = hash_fingerprint(&sample_fingerprint(12));
    let b = hash_fingerprint(&sample_fingerprint(12));
    assert_eq!(a, b);
}

#[test]
fn absent_sources_are_permitted() {
    let mut fp = BuildFingerprint::new();
    assert!(fp.function_name.is_none());
    assert!(fp.build_counter.is_none());
    fp.function_name = Some("f".to_string());
    let idx = DeterministicHash::new(fp).select(4);
    assert!(idx < 4);
}

#[test]
fn counter_change_moves_the_index() {
    let first = DeterministicHash::new(sample_fingerprint(0)).select(5);
    let mut moved = false;
    for counter in 1..20 {
        if DeterministicHash::new(sample_fingerprint(counter)).select(5) != first {
            moved = true;
        }
    }
    assert!(moved, "twenty consecutive counters never changed the selection");
}

#[test]
fn single_candidate_forces_index_zero() {
    assert_eq!(DeterministicHash::new(sample_fingerprint(9)).select(1), 0);
    assert_eq!(RandomUniform::new().select(1), 0);
    let p1 = SelectionPolicy::RandomUniform(RandomUniform::new());
    let p2 = SelectionPolicy::DeterministicHash(DeterministicHash::new(sample_fingerprint(9)));
    assert_eq!(p1.select(1), 0);
    assert_eq!(p2.select(1), 0);
}

#[test]
fn random_selection_stays_in_range() {
    let policy = RandomUniform::new();
    for _ in 0..1000 {
        assert!(policy.select(7) < 7);
    }
}

#[test]
fn random_selection_is_roughly_uniform() {
    let policy = RandomUniform::new();
    let mut counts = [0usize; 5];
    for _ in 0..10000 {
        counts[policy.select(5)] += 1;
    }
    for &c in counts.iter() {
        assert!(
            1500 <= c && c <= 2500,
            "index frequency {} strays too far from 2000 of 10000",
            c
        );
    }
}

#[test]
fn build_counter_lifecycle() {
    assert_eq!(advance_build_counter(None), (0, 1));
    assert_eq!(advance_build_counter(Some(0)), (0, 1));
    assert_eq!(advance_build_counter(Some(41)), (41, 42));
}
