use rustmorphism::obfuscation::{
    essence_lines, generate_random_name, inject_comments, inject_dead_statements,
    jitter_whitespace, normalize_line_exec, obfuscate, rename_identifier, ObfuscationConfig,
};

fn b(s: &str) -> Vec<u8> {
    s.as_bytes().to_vec()
}

fn lines(ss: &[&str]) -> Vec<Vec<u8>> {
    ss.iter().map(|s| s.as_bytes().to_vec()).collect()
}

fn sample_function_lines() -> Vec<Vec<u8>> {
    lines(&["function compute(x: i32) -> i32 {", "x + 1", "}"])
}

#[test]
fn normalize_collapses_runs_and_strips_trailing() {
    assert_eq!(normalize_line_exec(&b("a   b  c   ")), b("a b c"));
    assert_eq!(normalize_line_exec(&b("plain")), b("plain"));
    assert_eq!(normalize_line_exec(&b("    ")), b(""));
}

#[test]
fn whitespace_jitter_preserves_essence() {
    let input = sample_function_lines();
    let out = jitter_whitespace(&input, 100, 100);
    assert_eq!(out.len(), input.len());
    assert_eq!(essence_lines(&out), essence_lines(&input));
    assert_eq!(out[1], b("x  +  1    "));
}

#[test]
fn whitespace_jitter_with_zero_probability_is_a_no_op() {
    let input = sample_function_lines();
    let out = jitter_whitespace(&input, 0, 0);
    assert_eq!(out, input);
}

#[test]
fn comment_injection_adds_only_inert_lines() {
    let input = sample_function_lines();
    let out = inject_comments(&input);
    assert!(input.len() + 1 <= out.len() && out.len() <= input.len() + 4);
    assert_eq!(essence_lines(&out), essence_lines(&input));
}

#[test]
fn dead_statement_injection_keeps_the_first_line() {
    let input = sample_function_lines();
    let out = inject_dead_statements(&input);
    assert!(input.len() + 1 <= out.len() && out.len() <= input.len() + 3);
    assert_eq!(out[0], input[0]);
    assert_eq!(essence_lines(&out), essence_lines(&input));
}

#[test]
fn dead_statement_injection_degrades_to_a_no_op_on_short_text() {
    let input = lines(&["only line"]);
    let out = inject_dead_statements(&input);
    assert_eq!(out, input);
}

#[test]
fn full_pipeline_preserves_essence() {
    let input = sample_function_lines();
    for _ in 0..50 {
        let out = obfuscate(&input, &ObfuscationConfig::default());
        assert_eq!(essence_lines(&out), essence_lines(&input));
    }
}

#[test]
fn rename_replaces_whole_identifiers_consistently() {
    let input = lines(&["let x = x + 1;", "xx + x"]);
    let out = rename_identifier(&input, &b("x"), &b("qq"));
    assert_eq!(out, lines(&["let qq = qq + 1;", "xx + qq"]));
}

#[test]
fn rename_with_a_fresh_name_round_trips() {
    let input = lines(&["function f(acc: u64) -> u64 {", "acc * acc", "}"]);
    let renamed = rename_identifier(&input, &b("acc"), &b("zw"));
    assert_eq!(renamed, lines(&["function f(zw: u64) -> u64 {", "zw * zw", "}"]));
    let back = rename_identifier(&renamed, &b("zw"), &b("acc"));
    assert_eq!(back, input);
}

#[test]
fn random_names_stay_within_bounds() {
    for _ in 0..100 {
        let name = generate_random_name(2, 9);
        assert!(2 <= name.len() && name.len() <= 9);
        assert!(name.iter().all(|&c| (97..=122).contains(&c)));
    }
}
