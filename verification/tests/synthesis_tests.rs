use rustmorphism::errors::BuildError;
use rustmorphism::registry::parse;
use rustmorphism::synthesis::{synthesize, synthesize_lines};
use rustmorphism::text::{contains_bytes, join_text, split_lines};

fn b(s: &str) -> Vec<u8> {
    s.as_bytes().to_vec()
}

#[test]
fn output_contains_exactly_the_selected_body() {
    let text = b("function pick(x: u64) -> u64\n{ x + 111 }\n{ x + 222 }\n{ x + 333 }");
    let d = parse(&text).unwrap();
    let literals = ["111", "222", "333"];
    for sel in 0..3 {
        let out = synthesize(&d.signature, &d.variants, sel).unwrap();
        for (j, lit) in literals.iter().enumerate() {
            assert_eq!(
                contains_bytes(&out, &b(lit)),
                j == sel,
                "selected {} but literal {} presence is wrong",
                sel,
                lit
            );
        }
    }
}

#[test]
fn output_carries_the_rendered_signature() {
    let text = b("pub function pick(x: u64) -> u64\n{ x + 111 }\n{ x + 222 }");
    let d = parse(&text).unwrap();
    let out = synthesize(&d.signature, &d.variants, 1).unwrap();
    assert!(contains_bytes(&out, &b("pub function pick(x: u64) -> u64 {")));
    assert_eq!(out, b("pub function pick(x: u64) -> u64 {\nx + 222\n}"));
}

#[test]
fn selection_past_the_count_is_index_out_of_range() {
    let text = b("function pick(x: u64) -> u64\n{ x + 111 }");
    let d = parse(&text).unwrap();
    match synthesize(&d.signature, &d.variants, 1) {
        Err(e) => assert_eq!(e, BuildError::IndexOutOfRange),
        Ok(_) => panic!("an index at the variant count must be rejected"),
    }
}

#[test]
fn line_form_joins_to_the_flat_form() {
    let text = b("function pick(x: u64) -> u64\n{ x + 111 }\n{ x + 222 }");
    let d = parse(&text).unwrap();
    let flat = synthesize(&d.signature, &d.variants, 0).unwrap();
    let lines = synthesize_lines(&d.signature, &d.variants, 0).unwrap();
    assert_eq!(join_text(&lines), flat);
    assert_eq!(split_lines(&flat), lines);
}
